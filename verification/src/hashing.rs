//! The keyed pseudorandom hash primitive and the source of randomness used
//! by the eviction algorithm. Both come from outside crates and are the only
//! trusted boundary of the library.

use vstd::prelude::*;

verus! {

// Fixed keys of the two hash functions, pulled from /dev/urandom once.
pub const H0_K0: u64 = 0x9682ddb15b6163f4;

pub const H0_K1: u64 = 0x11abcdd6999453cb;

pub const FP_K0: u64 = 0xc10ad4af04cf6735;

pub const FP_K1: u64 = 0x64272fa17348a795;

/// The keyed 64-bit SipHash-1-3 digest of a string: a deterministic function
/// of the two keys and the string's characters alone.
pub uninterp spec fn sip13_of(k0: u64, k1: u64, s: Seq<char>) -> u64;

/// Relies on siphasher's `SipHasher13::new_with_keys` together with
/// `Hasher::write` and `Hasher::finish`: the digest is a pure function of
/// the two keys and the hashed bytes, hence of the string's characters.
#[verifier::external_body]
pub(crate) fn sip13_hash(k0: u64, k1: u64, key: &str) -> (r: u64)
    ensures
        r == sip13_of(k0, k1, key@),
{
    let mut h = siphasher::sip::SipHasher13::new_with_keys(k0, k1);
    std::hash::Hasher::write(&mut h, key.as_bytes());
    std::hash::Hasher::finish(&h)
}

/// Relies on rand's `thread_rng` and `Rng::gen_range` over the range
/// `0..n`: the drawn value lies below `n`, and the call asks for a
/// non-empty range. Nothing is assumed about which value comes back.
#[verifier::external_body]
pub(crate) fn random_below(n: u8) -> (r: u8)
    requires
        n >= 1,
    ensures
        r < n,
{
    rand::Rng::gen_range(&mut rand::thread_rng(), 0..n)
}

} // verus!
