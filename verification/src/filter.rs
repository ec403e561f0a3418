//! The cuckoo filter engine: fixed-capacity bucketed storage of 64-bit
//! fingerprints, two-hash addressing, and the cuckoo-style eviction
//! algorithm used when both candidate buckets of a key are full.

use vstd::prelude::*;
use crate::buckets::{
    bucket_of, compacted, count_nonzero, entries, lemma_all_zero, lemma_bucket_update,
    lemma_compacted_count, lemma_count_le_len, lemma_entries_mem, lemma_entries_update,
};
use crate::hashing::{sip13_of, sip13_hash, random_below, H0_K0, H0_K1, FP_K0, FP_K1};
use crate::render::{dec_label, hex16, push_dec_label, push_hex16};
use vstd::string::StringExecFns;

verus! {

/// The column separator of the diagnostic dump.
pub open spec fn column_sep() -> Seq<char> {
    seq![' ', '|', ' ']
}

/// One slot's worth of the diagnostic dump: a bucket label at the start of
/// each bucket, the slot's fingerprint in hexadecimal, and a line break
/// after the bucket's last slot.
pub open spec fn row_chunk(s: Seq<u64>, bs: int, i: int) -> Seq<char> {
    (if i % bs == 0 {
        dec_label(i / bs) + column_sep()
    } else {
        Seq::empty()
    }) + hex16(s[i]) + column_sep() + (if i % bs == bs - 1 {
        seq!['\n']
    } else {
        Seq::empty()
    })
}

/// The diagnostic dump of the first `upto` slots.
pub open spec fn dump_spec(s: Seq<u64>, bs: int, upto: int) -> Seq<char>
    decreases upto,
{
    if upto <= 0 {
        Seq::empty()
    } else {
        dump_spec(s, bs, upto - 1) + row_chunk(s, bs, upto - 1)
    }
}

broadcast use vstd::multiset::group_multiset_axioms;

/// The fingerprint stored for a key: its keyed hash, with the all-zero
/// digest remapped to `1` so that `0` can serve as the empty-slot sentinel
/// without making a stored key invisible.
pub open spec fn fingerprint_of(s: Seq<char>) -> u64 {
    if sip13_of(FP_K0, FP_K1, s) == 0 {
        1u64
    } else {
        sip13_of(FP_K0, FP_K1, s)
    }
}

pub struct CuckooFilter {
    pub backing_vector: Vec<u64>,
    pub occupied_entries: u64,
    pub bucket_size: u8,  // # of entries inside each bucket
    pub num_bucket_exponent: u8,
    pub index_mask: u64,
}

impl CuckooFilter {
    /// The flat sequence of fingerprint slots.
    pub open spec fn slots(self) -> Seq<u64> {
        self.backing_vector@
    }

    pub open spec fn num_buckets(self) -> int {
        (1u64 << self.num_bucket_exponent) as int
    }

    pub open spec fn total_slots(self) -> int {
        self.num_buckets() * self.bucket_size
    }

    /// The bucket with index `b`.
    pub open spec fn bucket(self, b: int) -> Seq<u64> {
        bucket_of(self.slots(), self.bucket_size as nat, b)
    }

    /// How many slots of bucket `b` are occupied.
    pub open spec fn bucket_len(self, b: int) -> nat {
        count_nonzero(self.bucket(b))
    }

    /// The flat position of slot `j` of bucket `b`.
    pub open spec fn slot_index(self, b: int, j: int) -> int {
        b * self.bucket_size + j
    }

    /// The storage layout fixed at construction: at least one slot per
    /// bucket, a power-of-two bucket count, the derived index mask, and a
    /// backing array of exactly `bucket_count x bucket_size` slots.
    pub open spec fn geometry_ok(self) -> bool {
        &&& self.bucket_size >= 1
        &&& self.num_bucket_exponent < 64
        &&& self.index_mask == self.num_buckets() - 1
        &&& self.slots().len() == self.total_slots()
    }

    /// Every bucket keeps its occupied slots as a contiguous prefix.
    pub open spec fn buckets_compacted(self) -> bool {
        forall|b: int| 0 <= b < self.num_buckets() ==> compacted(#[trigger] self.bucket(b))
    }

    /// The running occupancy counter agrees with a full scan of the slots.
    pub open spec fn counts_ok(self) -> bool {
        self.occupied_entries == count_nonzero(self.slots())
    }

    /// A well-formed filter: sound layout, compacted buckets, exact
    /// occupancy accounting.
    pub open spec fn wf(self) -> bool {
        &&& self.geometry_ok()
        &&& self.buckets_compacted()
        &&& self.counts_ok()
    }

    /// The primary bucket index of a key.
    pub open spec fn primary_index_of(self, s: Seq<char>) -> u64 {
        sip13_of(H0_K0, H0_K1, s) & self.index_mask
    }

    /// The other candidate bucket of a fingerprint found at `i`.
    pub open spec fn alt_index_of(self, i: u64, fp: u64) -> u64 {
        (i ^ fp) & self.index_mask
    }

    /// What a membership test reports: the key's fingerprint is resident in
    /// one of its two candidate buckets.
    pub open spec fn contains_spec(self, s: Seq<char>) -> bool {
        let fp = fingerprint_of(s);
        let i0 = self.primary_index_of(s);
        let i1 = self.alt_index_of(i0, fp);
        self.bucket(i0 as int).contains(fp) || self.bucket(i1 as int).contains(fp)
    }

    /// Geometry puts every masked value strictly below the bucket count.
    pub proof fn lemma_mask_bound(self, x: u64)
        requires
            self.geometry_ok(),
        ensures
            0 <= (x & self.index_mask) < self.num_buckets(),
            self.num_buckets() >= 1,
    {
        let e = self.num_bucket_exponent;
        let m = self.index_mask;
        assert((1u64 << e) >= 1) by (bit_vector)
            requires
                e < 64,
        ;
        assert((x & m) <= m) by (bit_vector);
    }

    /// A valid bucket index denotes a slot range inside the backing array.
    pub proof fn lemma_bucket_in_range(self, b: int)
        requires
            self.geometry_ok(),
            0 <= b < self.num_buckets(),
        ensures
            0 <= b * self.bucket_size,
            b * self.bucket_size + self.bucket_size <= self.slots().len(),
            (b + 1) * self.bucket_size == b * self.bucket_size + self.bucket_size,
            self.bucket(b).len() == self.bucket_size,
            forall|t: int|
                0 <= t < self.bucket_size ==> self.bucket(b)[t] == self.slots()[b
                    * self.bucket_size + t],
            self.num_buckets() <= self.slots().len(),
    {
        let bs = self.bucket_size as int;
        let nb = self.num_buckets();
        assert(0 <= b * bs && (b + 1) * bs <= nb * bs && nb <= nb * bs) by (nonlinear_arith)
            requires
                0 <= b < nb,
                bs >= 1,
        ;
        assert((b + 1) * bs == b * bs + bs) by (nonlinear_arith);
    }

    /// Construct an empty filter with `bucket_size` slots in each of
    /// `2^num_bucket_exponent` buckets.
    pub fn new(bucket_size: u8, num_bucket_exponent: u8) -> (r: CuckooFilter)
        requires
            bucket_size >= 1,
            num_bucket_exponent < 64,
            (1u64 << num_bucket_exponent) * bucket_size <= usize::MAX,
        ensures
            r.wf(),
            r.bucket_size == bucket_size,
            r.num_bucket_exponent == num_bucket_exponent,
            r.occupied_entries == 0,
            r.slots().len() == (1u64 << num_bucket_exponent) * bucket_size,
            forall|i: int| 0 <= i < r.slots().len() ==> r.slots()[i] == 0u64,
    {
        let num_bucket: u64 = 1u64 << num_bucket_exponent;
        proof {
            assert(num_bucket >= 1) by (bit_vector)
                requires
                    num_bucket == 1u64 << num_bucket_exponent,
                    num_bucket_exponent < 64,
            ;
        }
        let capacity: u64 = num_bucket * bucket_size as u64;
        let mut v: Vec<u64> = Vec::new();
        let mut i: u64 = 0;
        while i < capacity
            invariant
                i <= capacity,
                v@.len() == i,
                forall|k: int| 0 <= k < i ==> v@[k] == 0u64,
            decreases capacity - i,
        {
            v.push(0);
            i += 1;
        }
        let r = CuckooFilter {
            backing_vector: v,
            occupied_entries: 0,
            bucket_size,
            num_bucket_exponent,
            index_mask: num_bucket - 1,
        };
        proof {
            lemma_all_zero(r.slots());
            assert forall|b: int| 0 <= b < r.num_buckets() implies compacted(
                #[trigger] r.bucket(b),
            ) by {
                r.lemma_bucket_in_range(b);
            }
        }
        r
    }

    /// A human-readable dump of the backing storage, slots grouped by
    /// bucket: a diagnostic aid, not part of the functional contract.
    pub fn dump_backing_vector(&self) -> (r: String)
        requires
            self.geometry_ok(),
        ensures
            r@ == dump_spec(self.slots(), self.bucket_size as int, self.slots().len() as int),
    {
        let mut s = String::new();
        let bs: usize = self.bucket_size as usize;
        let len: usize = self.backing_vector.len();
        let mut i: usize = 0;
        while i < len
            invariant
                self.geometry_ok(),
                bs == self.bucket_size,
                len == self.slots().len(),
                i <= len,
                s@ == dump_spec(self.slots(), bs as int, i as int),
            decreases len - i,
        {
            let ghost row_start = s@;
            if i % bs == 0 {
                push_dec_label(&mut s, i / bs);
                s.append(" | ");
            }
            push_hex16(&mut s, self.backing_vector[i]);
            s.append(" | ");
            if i % bs == bs - 1 {
                s.append("\n");
            }
            proof {
                reveal_strlit(" | ");
                reveal_strlit("\n");
                assert(" | "@ =~= column_sep());
                assert("\n"@ =~= seq!['\n']);
                assert(s@ =~= row_start + row_chunk(self.slots(), bs as int, i as int));
                assert(s@ =~= dump_spec(self.slots(), bs as int, i + 1));
            }
            i += 1;
        }
        s
    }

    /// The key's primary bucket index: its index hash masked down.
    fn get_hash_index_0(&self, key: &str) -> (r: usize)
        requires
            self.geometry_ok(),
        ensures
            r == self.primary_index_of(key@),
            r < self.num_buckets(),
    {
        let h = sip13_hash(H0_K0, H0_K1, key);
        let idx: u64 = h & self.index_mask;
        proof {
            self.lemma_mask_bound(h);
            self.lemma_bucket_in_range(0);
        }
        let len = self.backing_vector.len();
        proof {
            assert(idx < self.num_buckets() <= len);
        }
        idx as usize
    }

    /// The key's fingerprint; never `0`, so that `0` keeps meaning "empty".
    fn get_fingerprint(&self, key: &str) -> (fp: u64)
        ensures
            fp == fingerprint_of(key@),
            fp != 0,
    {
        let h = sip13_hash(FP_K0, FP_K1, key);
        if h == 0 {
            1
        } else {
            h
        }
    }

    /// The other candidate bucket of fingerprint `fp` found at `index`.
    pub fn get_hash_index_alt(&self, index: usize, fp: u64) -> (r: usize)
        requires
            self.geometry_ok(),
            index <= u64::MAX,
        ensures
            r == self.alt_index_of(index as u64, fp),
            r < self.num_buckets(),
    {
        let x: u64 = (index as u64) ^ fp;
        let idx: u64 = x & self.index_mask;
        proof {
            self.lemma_mask_bound(x);
            self.lemma_bucket_in_range(0);
        }
        let len = self.backing_vector.len();
        proof {
            assert(idx < self.num_buckets() <= len);
        }
        idx as usize
    }

    /// Count the occupied slots of bucket `bucket_index`.
    pub fn get_bucket_length(&self, bucket_index: usize) -> (r: u8)
        requires
            self.geometry_ok(),
            bucket_index < self.num_buckets(),
        ensures
            r == self.bucket_len(bucket_index as int),
            r <= self.bucket_size,
    {
        proof {
            self.lemma_bucket_in_range(bucket_index as int);
        }
        let len: usize = self.backing_vector.len();
        let bucket_start: usize = bucket_index * self.bucket_size as usize;
        let bucket_end: usize = bucket_start + self.bucket_size as usize;
        let mut count: u8 = 0;
        let mut i: usize = bucket_start;
        while i < bucket_end
            invariant
                bucket_start <= i <= bucket_end,
                bucket_start == bucket_index * self.bucket_size,
                bucket_end == bucket_start + self.bucket_size,
                bucket_end <= self.slots().len(),
                count == count_nonzero(self.slots().subrange(bucket_start as int, i as int)),
                count <= i - bucket_start,
            decreases bucket_end - i,
        {
            let slot = self.backing_vector[i];
            proof {
                let pre = self.slots().subrange(bucket_start as int, i as int);
                let post = self.slots().subrange(bucket_start as int, i + 1 as int);
                assert(post.drop_last() =~= pre);
                assert(post.last() == self.slots()[i as int]);
            }
            if slot != 0 {
                count += 1;
            }
            i += 1;
        }
        proof {
            assert(self.bucket(bucket_index as int) =~= self.slots().subrange(
                bucket_start as int,
                bucket_end as int,
            ));
            lemma_count_le_len(self.bucket(bucket_index as int));
        }
        count
    }

    /// Write fingerprint `fp` into slot `entry_index` of bucket
    /// `bucket_index`. A positional primitive: callers are responsible for
    /// keeping the bucket compacted. When it appends one non-zero
    /// fingerprint right after a compacted bucket's occupied prefix, the
    /// bucket stays compacted and grows by one.
    pub fn set_bucket_entry(&mut self, bucket_index: usize, entry_index: u8, fp: u64)
        requires
            old(self).geometry_ok(),
            bucket_index < old(self).num_buckets(),
            entry_index < old(self).bucket_size,
        ensures
            final(self).geometry_ok(),
            final(self).bucket_size == old(self).bucket_size,
            final(self).num_bucket_exponent == old(self).num_bucket_exponent,
            final(self).index_mask == old(self).index_mask,
            final(self).occupied_entries == old(self).occupied_entries,
            final(self).slots() == old(self).slots().update(
                old(self).slot_index(bucket_index as int, entry_index as int),
                fp,
            ),
            final(self).bucket(bucket_index as int) == old(self).bucket(
                bucket_index as int,
            ).update(entry_index as int, fp),
            forall|b2: int|
                0 <= b2 < old(self).num_buckets() && b2 != bucket_index ==> final(self).bucket(b2)
                    == old(self).bucket(b2),
            (compacted(old(self).bucket(bucket_index as int)) && entry_index == old(
                self,
            ).bucket_len(bucket_index as int) && fp != 0) ==> (compacted(
                final(self).bucket(bucket_index as int),
            ) && final(self).bucket_len(bucket_index as int) == old(self).bucket_len(
                bucket_index as int,
            ) + 1 && entries(final(self).slots()) == entries(old(self).slots()).insert(fp)
                && count_nonzero(final(self).slots()) == count_nonzero(old(self).slots()) + 1),
    {
        proof {
            old(self).lemma_bucket_in_range(bucket_index as int);
        }
        let len: usize = self.backing_vector.len();
        let index: usize = bucket_index * self.bucket_size as usize + entry_index as usize;
        self.backing_vector[index] = fp;
        proof {
            let bi = bucket_index as int;
            let ei = entry_index as int;
            let bs = old(self).bucket_size as nat;
            let s = old(self).slots();
            lemma_bucket_update(s, bs, bi, ei, fp);
            assert forall|b2: int|
                0 <= b2 < old(self).num_buckets() && b2 != bi implies self.bucket(b2) == old(
                self,
            ).bucket(b2) by {
                old(self).lemma_bucket_in_range(b2);
            }
            let oldb = old(self).bucket(bi);
            if compacted(oldb) && ei == old(self).bucket_len(bi) && fp != 0 {
                let newb = self.bucket(bi);
                lemma_compacted_count(oldb);
                lemma_count_le_len(oldb);
                assert forall|t: int| 0 <= t < newb.len() implies ((newb[t] != 0) <==> t < ei
                    + 1) by {
                    if t != ei {
                        assert(newb[t] == oldb[t]);
                    }
                }
                crate::buckets::lemma_count_of_prefix(newb, ei + 1);
                assert(s[index as int] == oldb[ei]);
                lemma_entries_update(s, index as int, fp);
            }
        }
    }

    /// Remove the entry at `entry_index` of bucket `bucket_index`, given the
    /// bucket's already-computed occupied length: the last occupied slot is
    /// copied over the removed one and then zeroed, preserving the
    /// contiguous-prefix invariant, and the removed fingerprint is returned.
    pub fn remove_bucket_entry(&mut self, bucket_index: usize, entry_index: u8, bucket_length: u8) -> (r: u64)
        requires
            old(self).geometry_ok(),
            bucket_index < old(self).num_buckets(),
            1 <= bucket_length <= old(self).bucket_size,
            entry_index < bucket_length,
        ensures
            final(self).geometry_ok(),
            final(self).bucket_size == old(self).bucket_size,
            final(self).num_bucket_exponent == old(self).num_bucket_exponent,
            final(self).index_mask == old(self).index_mask,
            final(self).occupied_entries == old(self).occupied_entries,
            r == old(self).slots()[old(self).slot_index(bucket_index as int, entry_index as int)],
            final(self).slots() == old(self).slots().update(
                old(self).slot_index(bucket_index as int, entry_index as int),
                old(self).slots()[old(self).slot_index(bucket_index as int, bucket_length - 1)],
            ).update(old(self).slot_index(bucket_index as int, bucket_length - 1), 0),
            final(self).bucket(bucket_index as int) == old(self).bucket(
                bucket_index as int,
            ).update(
                entry_index as int,
                old(self).bucket(bucket_index as int)[bucket_length - 1],
            ).update(bucket_length - 1, 0),
            forall|b2: int|
                0 <= b2 < old(self).num_buckets() && b2 != bucket_index ==> final(self).bucket(b2)
                    == old(self).bucket(b2),
            (compacted(old(self).bucket(bucket_index as int)) && bucket_length == old(
                self,
            ).bucket_len(bucket_index as int)) ==> (r != 0 && compacted(
                final(self).bucket(bucket_index as int),
            ) && final(self).bucket_len(bucket_index as int) == bucket_length - 1 && entries(
                final(self).bucket(bucket_index as int),
            ) == entries(old(self).bucket(bucket_index as int)).remove(r) && entries(
                final(self).slots(),
            ) == entries(old(self).slots()).remove(r) && count_nonzero(final(self).slots()) + 1
                == count_nonzero(old(self).slots())),
    {
        proof {
            old(self).lemma_bucket_in_range(bucket_index as int);
        }
        let len: usize = self.backing_vector.len();
        let base: usize = bucket_index * self.bucket_size as usize;
        // last element in the bucket
        let replacement_index: usize = base + (bucket_length - 1) as usize;
        // victim
        let victim_index: usize = base + entry_index as usize;
        let replacement: u64 = self.backing_vector[replacement_index];
        let popped: u64 = self.backing_vector[victim_index];
        self.backing_vector[victim_index] = replacement;
        self.backing_vector[replacement_index] = 0;
        proof {
            let bi = bucket_index as int;
            let ei = entry_index as int;
            let li = bucket_length - 1;
            let bs = old(self).bucket_size as nat;
            let s = old(self).slots();
            let oldb = old(self).bucket(bi);
            let s1 = s.update(victim_index as int, replacement);
            lemma_bucket_update(s, bs, bi, ei, replacement);
            lemma_bucket_update(s1, bs, bi, li, 0);
            assert(s1[replacement_index as int] == replacement);
            assert forall|b2: int|
                0 <= b2 < old(self).num_buckets() && b2 != bi implies self.bucket(b2) == old(
                self,
            ).bucket(b2) by {
                old(self).lemma_bucket_in_range(b2);
                assert(bucket_of(s1, bs, b2) == bucket_of(s, bs, b2));
            }
            if compacted(oldb) && bucket_length == old(self).bucket_len(bi) {
                let newb = self.bucket(bi);
                lemma_compacted_count(oldb);
                lemma_count_le_len(oldb);
                assert(popped == oldb[ei]);
                assert(popped != 0);
                assert(replacement == oldb[li]);
                assert(replacement != 0);
                assert forall|t: int| 0 <= t < newb.len() implies ((newb[t] != 0) <==> t < li) by {
                    if t < li {
                        if t != ei {
                            assert(newb[t] == oldb[t]);
                        }
                    } else if t > li {
                        assert(newb[t] == oldb[t]);
                    }
                }
                crate::buckets::lemma_count_of_prefix(newb, li as int);
                // The resident fingerprints of the whole array lose `popped`.
                lemma_entries_update(s, victim_index as int, replacement);
                lemma_entries_update(s1, replacement_index as int, 0);
                assert(entries(self.slots()) =~= entries(s).remove(popped));
                // And so do those of the bucket itself.
                let b1 = oldb.update(ei, replacement);
                lemma_entries_update(oldb, ei, replacement);
                lemma_entries_update(b1, li as int, 0);
                assert(b1[li as int] == replacement);
                assert(entries(newb) =~= entries(oldb).remove(popped));
            }
        }
        popped
    }

    /// Two filters with the same storage and layout agree on everything the
    /// occupancy counter does not enter into.
    pub proof fn lemma_same_slots(a: CuckooFilter, b: CuckooFilter)
        requires
            a.backing_vector@ == b.backing_vector@,
            a.bucket_size == b.bucket_size,
            a.num_bucket_exponent == b.num_bucket_exponent,
            a.index_mask == b.index_mask,
        ensures
            forall|b2: int| #[trigger] a.bucket(b2) == b.bucket(b2),
            a.num_buckets() == b.num_buckets(),
            a.geometry_ok() == b.geometry_ok(),
            a.buckets_compacted() == b.buckets_compacted(),
            forall|s: Seq<char>| #[trigger] a.contains_spec(s) == b.contains_spec(s),
    {
        assert(a.slots() == b.slots());
        assert(forall|b2: int| #[trigger] a.bucket(b2) == b.bucket(b2));
        assert(a.buckets_compacted() == b.buckets_compacted()) by {
            if a.buckets_compacted() {
                assert forall|b2: int|
                    0 <= b2 < b.num_buckets() implies compacted(#[trigger] b.bucket(b2)) by {
                    assert(b.bucket(b2) == a.bucket(b2));
                }
            } else if b.buckets_compacted() {
                assert forall|b2: int|
                    0 <= b2 < a.num_buckets() implies compacted(#[trigger] a.bucket(b2)) by {
                    assert(a.bucket(b2) == b.bucket(b2));
                }
            }
        }
    }

    /// Applying the alternate-index map twice with the same fingerprint
    /// returns the original bucket index: the eviction algorithm relies on
    /// this to bounce a fingerprint between exactly two buckets.
    pub proof fn lemma_alternate_index_involution(self, i: u64, fp: u64)
        requires
            self.geometry_ok(),
            i <= self.index_mask,
        ensures
            self.alt_index_of(self.alt_index_of(i, fp), fp) == i,
            self.alt_index_of(i, fp) <= self.index_mask,
    {
        let m = self.index_mask;
        let e = self.num_bucket_exponent;
        assert(m == (1u64 << e) - 1);
        assert(i & m == i) by (bit_vector)
            requires
                i <= m,
                m == (1u64 << e) - 1,
                e < 64,
        ;
        assert((((i ^ fp) & m) ^ fp) & m == i) by (bit_vector)
            requires
                i & m == i,
        ;
        assert(((i ^ fp) & m) <= m) by (bit_vector);
    }

    /// Scan one bucket's slot range for a literal fingerprint value.
    fn bucket_contains(&self, bucket_index: usize, fp: u64) -> (r: bool)
        requires
            self.geometry_ok(),
            bucket_index < self.num_buckets(),
        ensures
            r == self.bucket(bucket_index as int).contains(fp),
    {
        proof {
            self.lemma_bucket_in_range(bucket_index as int);
        }
        let len: usize = self.backing_vector.len();
        let start: usize = bucket_index * self.bucket_size as usize;
        let end: usize = start + self.bucket_size as usize;
        let mut i: usize = start;
        while i < end
            invariant
                self.geometry_ok(),
                bucket_index < self.num_buckets(),
                start <= i <= end,
                start == bucket_index * self.bucket_size,
                end == start + self.bucket_size,
                end <= self.slots().len(),
                forall|t: int| start <= t < i ==> self.slots()[t] != fp,
            decreases end - i,
        {
            if self.backing_vector[i] == fp {
                proof {
                    self.lemma_bucket_in_range(bucket_index as int);
                    assert(self.bucket(bucket_index as int)[i - start] == fp);
                }
                return true;
            }
            i += 1;
        }
        proof {
            self.lemma_bucket_in_range(bucket_index as int);
            assert forall|k: int|
                0 <= k < self.bucket(bucket_index as int).len() implies self.bucket(
                bucket_index as int,
            )[k] != fp by {
                assert(self.bucket(bucket_index as int)[k] == self.slots()[start + k]);
            }
        }
        false
    }

    /// During an eviction chain the inserted fingerprint is either already
    /// resident in one of the key's two candidate buckets, or it is the
    /// carried fingerprint about to be placed into one of them.
    pub open spec fn carry_inv(self, i0: int, i1: int, fp0: u64, carried: u64, vb: int) -> bool {
        ||| self.bucket(i0).contains(fp0)
        ||| self.bucket(i1).contains(fp0)
        ||| (carried == fp0 && (vb == i0 || vb == i1))
    }

    /// Insert a key. On success the key's fingerprint resides in one of its
    /// two candidate buckets, so a later membership test finds it. When
    /// both candidate buckets are full, a bounded cuckoo-eviction chain
    /// relocates resident fingerprints between their own candidate buckets;
    /// if the bound is exhausted the insert fails, and the chain's last
    /// evicted fingerprint has been displaced out of the structure (the
    /// documented trade-off of the non-transactional eviction scheme).
    pub fn insert(&mut self, key: &str) -> (r: bool)
        requires
            old(self).wf(),
        ensures
            final(self).wf(),
            final(self).bucket_size == old(self).bucket_size,
            final(self).num_bucket_exponent == old(self).num_bucket_exponent,
            final(self).index_mask == old(self).index_mask,
            final(self).slots().len() == old(self).slots().len(),
            r ==> final(self).occupied_entries == old(self).occupied_entries + 1 && entries(
                final(self).slots(),
            ) == entries(old(self).slots()).insert(fingerprint_of(key@))
                && final(self).contains_spec(key@),
            !r ==> final(self).occupied_entries == old(self).occupied_entries && (exists|
                lost: u64,
            |
                lost != 0 && #[trigger] entries(final(self).slots()).insert(lost) == entries(
                    old(self).slots(),
                ).insert(fingerprint_of(key@))),
            (old(self).bucket_len(old(self).primary_index_of(key@) as int) < old(self).bucket_size
                || old(self).bucket_len(
                old(self).alt_index_of(old(self).primary_index_of(key@), fingerprint_of(key@)) as int,
            ) < old(self).bucket_size) ==> r,
    {
        let ghost pre = *old(self);
        let total: usize = self.backing_vector.len();
        let mut fp = self.get_fingerprint(key);
        let ghost fp0 = fingerprint_of(key@);
        let i0 = self.get_hash_index_0(key);
        let i1 = self.get_hash_index_alt(i0, fp);
        proof {
            self.lemma_mask_bound(sip13_of(H0_K0, H0_K1, key@));
            self.lemma_alternate_index_involution(i0 as u64, fp0);
        }
        let i0_bucket_length = self.get_bucket_length(i0);
        let i1_bucket_length = self.get_bucket_length(i1);
        if i0_bucket_length < self.bucket_size {
            self.set_bucket_entry(i0, i0_bucket_length, fp);
            let ghost mid = *self;
            proof {
                pre.lemma_bucket_in_range(i0 as int);
                mid.lemma_bucket_in_range(i0 as int);
                assert(mid.bucket(i0 as int)[i0_bucket_length as int] == fp);
                assert forall|b2: int|
                    0 <= b2 < mid.num_buckets() implies compacted(#[trigger] mid.bucket(b2)) by {
                    if b2 != i0 {
                        assert(mid.bucket(b2) == pre.bucket(b2));
                    }
                }
                lemma_count_le_len(mid.slots());
            }
            self.occupied_entries = self.occupied_entries + 1;
            proof {
                CuckooFilter::lemma_same_slots(mid, *self);
                assert(self.bucket(i0 as int).contains(fp0));
                assert(self.contains_spec(key@));
            }
            return true;
        } else {
            if i1_bucket_length < self.bucket_size {
                self.set_bucket_entry(i1, i1_bucket_length, fp);
                let ghost mid = *self;
                proof {
                    pre.lemma_bucket_in_range(i1 as int);
                    mid.lemma_bucket_in_range(i1 as int);
                    assert(mid.bucket(i1 as int)[i1_bucket_length as int] == fp);
                    assert forall|b2: int|
                        0 <= b2 < mid.num_buckets() implies compacted(
                        #[trigger] mid.bucket(b2),
                    ) by {
                        if b2 != i1 {
                            assert(mid.bucket(b2) == pre.bucket(b2));
                        }
                    }
                    lemma_count_le_len(mid.slots());
                }
                self.occupied_entries = self.occupied_entries + 1;
                proof {
                    CuckooFilter::lemma_same_slots(mid, *self);
                    assert(self.bucket(i1 as int).contains(fp0));
                    assert(self.contains_spec(key@));
                }
                return true;
            }
        }
        // Both buckets full; need to kick entries around
        let mut victim_bucket = i0;
        let mut iteration: u16 = 0;
        while iteration < 500
            invariant
                pre == *old(self),
                self.geometry_ok(),
                self.buckets_compacted(),
                self.counts_ok(),
                self.bucket_size == pre.bucket_size,
                self.num_bucket_exponent == pre.num_bucket_exponent,
                self.index_mask == pre.index_mask,
                self.slots().len() == pre.slots().len(),
                total == pre.slots().len(),
                self.occupied_entries == pre.occupied_entries,
                fp != 0,
                fp0 == fingerprint_of(key@),
                i0 == pre.primary_index_of(key@),
                i1 == pre.alt_index_of(i0 as u64, fp0),
                self.alt_index_of(i1 as u64, fp0) == i0,
                i0 < self.num_buckets(),
                i1 < self.num_buckets(),
                victim_bucket < self.num_buckets(),
                self.bucket_len(victim_bucket as int) == self.bucket_size,
                entries(self.slots()).insert(fp) == entries(pre.slots()).insert(fp0),
                self.carry_inv(i0 as int, i1 as int, fp0, fp, victim_bucket as int),
                iteration <= 500,
            decreases 500 - iteration,
        {
            // Select a random entry in the victim bucket
            let victim_bucket_length = self.get_bucket_length(victim_bucket);
            let victim_entry_index = random_below(victim_bucket_length);
            let ghost prev = *self;
            let ghost vb = victim_bucket as int;
            // Swap the carried fingerprint with the evicted one
            let fp_bak = fp;
            fp = self.remove_bucket_entry(victim_bucket, victim_entry_index, victim_bucket_length);
            let ghost mid = *self;
            self.set_bucket_entry(victim_bucket, victim_bucket_length - 1, fp_bak);
            proof {
                let ei = victim_entry_index as int;
                let li = victim_bucket_length - 1;
                let pb = prev.bucket(vb);
                // The swap leaves the victim bucket full and compacted.
                assert(self.bucket_len(vb) == victim_bucket_length);
                assert forall|b2: int|
                    0 <= b2 < self.num_buckets() implies compacted(#[trigger] self.bucket(b2)) by {
                    if b2 != vb {
                        assert(mid.bucket(b2) == pb || mid.bucket(b2) == prev.bucket(b2));
                        assert(self.bucket(b2) == prev.bucket(b2));
                    }
                }
                // Resident fingerprints: the evicted one left, the carried
                // one took its bucket's freed slot.
                assert(entries(self.slots()).insert(fp) == entries(prev.slots()).insert(fp_bak))
                    by {
                    assert(entries(mid.slots()) == entries(prev.slots()).remove(fp));
                    assert(entries(self.slots()) == entries(mid.slots()).insert(fp_bak));
                    prev.lemma_bucket_in_range(vb);
                    lemma_entries_mem(prev.slots(), prev.slot_index(vb, ei));
                    assert(entries(prev.slots()).remove(fp).insert(fp_bak).insert(fp) =~= entries(
                        prev.slots(),
                    ).insert(fp_bak));
                }
                // Membership of the requested fingerprint survives the swap,
                // possibly as the newly carried value.
                lemma_compacted_count(pb);
                prev.lemma_bucket_in_range(vb);
                assert(fp == pb[ei]);
                if fp0 == fp_bak && (vb == i0 || vb == i1) {
                    assert(self.bucket(vb)[li as int] == fp_bak);
                    assert(self.bucket(vb).contains(fp0));
                } else if prev.bucket(i0 as int).contains(fp0) || prev.bucket(
                    i1 as int,
                ).contains(fp0) {
                    let c: int = if prev.bucket(i0 as int).contains(fp0) {
                        i0 as int
                    } else {
                        i1 as int
                    };
                    if c != vb {
                        assert(self.bucket(c) == prev.bucket(c));
                    } else if fp != fp0 {
                        let k = choose|k: int| 0 <= k < pb.len() && pb[k] == fp0;
                        assert(pb[k] == fp0);
                        assert(k != ei);
                        if k == li {
                            assert(self.bucket(vb)[ei] == pb[li as int]);
                            assert(self.bucket(vb).contains(fp0));
                        } else {
                            assert(self.bucket(vb)[k] == pb[k]);
                            assert(self.bucket(vb).contains(fp0));
                        }
                    }
                    // remaining case: fp == fp0, resolved after the alternate
                    // bucket becomes the new victim below
                }
            }
            // Find the evicted fingerprint's alternate bucket
            let ghost vb_prev = victim_bucket as int;
            victim_bucket = self.get_hash_index_alt(victim_bucket, fp);
            proof {
                if !(self.bucket(i0 as int).contains(fp0) || self.bucket(i1 as int).contains(fp0))
                {
                    // the carried fingerprint is the requested one, evicted
                    // from one of its own buckets: the new victim is the other
                    assert(fp == fp0 && (vb_prev == i0 || vb_prev == i1));
                    if vb_prev == i0 {
                        assert(victim_bucket == i1);
                    } else {
                        assert(victim_bucket == i0);
                    }
                }
            }
            let victim_alt_bucket_length = self.get_bucket_length(victim_bucket);
            // If the victim's alternate bucket has room, we're done
            if victim_alt_bucket_length < self.bucket_size {
                let ghost before = *self;
                self.set_bucket_entry(victim_bucket, victim_alt_bucket_length, fp);
                let ghost mid = *self;
                proof {
                    let nvb = victim_bucket as int;
                    before.lemma_bucket_in_range(nvb);
                    mid.lemma_bucket_in_range(nvb);
                    assert(mid.bucket(nvb)[victim_alt_bucket_length as int] == fp);
                    assert forall|b2: int|
                        0 <= b2 < mid.num_buckets() implies compacted(
                        #[trigger] mid.bucket(b2),
                    ) by {
                        if b2 != nvb {
                            assert(mid.bucket(b2) == before.bucket(b2));
                        }
                    }
                    lemma_count_le_len(mid.slots());
                    // membership: either it was already resident (appending
                    // cannot displace it), or it is the value just placed
                    if before.bucket(i0 as int).contains(fp0) || before.bucket(
                        i1 as int,
                    ).contains(fp0) {
                        let c: int = if before.bucket(i0 as int).contains(fp0) {
                            i0 as int
                        } else {
                            i1 as int
                        };
                        if c != nvb {
                            assert(mid.bucket(c) == before.bucket(c));
                        } else {
                            let cb = before.bucket(c);
                            let k = choose|k: int| 0 <= k < cb.len() && cb[k] == fp0;
                            before.lemma_bucket_in_range(c);
                            lemma_compacted_count(cb);
                            assert(cb[victim_alt_bucket_length as int] == 0);
                            assert(k != victim_alt_bucket_length);
                            assert(mid.bucket(c)[k] == cb[k]);
                            assert(mid.bucket(c).contains(fp0));
                        }
                    } else {
                        assert(fp == fp0 && (nvb == i0 || nvb == i1));
                        assert(mid.bucket(nvb).contains(fp0));
                    }
                    assert(entries(mid.slots()) == entries(pre.slots()).insert(fp0)) by {
                        assert(entries(mid.slots()) == entries(before.slots()).insert(fp));
                        assert(entries(before.slots()).insert(fp) == entries(pre.slots()).insert(
                            fp0,
                        ));
                    }
                }
                self.occupied_entries = self.occupied_entries + 1;
                proof {
                    CuckooFilter::lemma_same_slots(mid, *self);
                    assert(self.bucket(i0 as int).contains(fp0) || self.bucket(
                        i1 as int,
                    ).contains(fp0));
                    assert(self.contains_spec(key@));
                }
                return true;
            }
            iteration += 1;
        }
        proof {
            assert(entries(self.slots()).insert(fp) == entries(pre.slots()).insert(fp0));
        }
        return false;
    }

    /// Bounded occupancy: no bucket ever holds more than `bucket_size`
    /// occupied slots.
    pub proof fn lemma_bounded_occupancy(self, b: int)
        requires
            self.geometry_ok(),
            0 <= b < self.num_buckets(),
        ensures
            self.bucket_len(b) <= self.bucket_size,
    {
        self.lemma_bucket_in_range(b);
        lemma_count_le_len(self.bucket(b));
    }

    /// Occupancy accounting: in a well-formed filter the running counter
    /// equals the count of non-zero slots that a full linear scan of the
    /// backing storage finds.
    pub proof fn lemma_occupancy_accounting(self)
        requires
            self.wf(),
        ensures
            self.occupied_entries == count_nonzero(self.slots()),
    {
    }

    /// Load factor range: the occupancy counter never exceeds the total
    /// slot count, so the occupied fraction lies in [0, 1]. Each successful
    /// insert raises the counter by exactly one (see `insert`'s contract),
    /// and so moves the fraction up by exactly one part in `total_slots`.
    pub proof fn lemma_load_factor_range(self)
        requires
            self.wf(),
        ensures
            0 <= self.occupied_entries <= self.total_slots(),
    {
        lemma_count_le_len(self.slots());
    }

    /// Membership test: true iff the key's fingerprint is present as a
    /// literal slot value in either of its two candidate buckets. A pure
    /// read with no false negatives for resident fingerprints.
    pub fn contains(&self, key: &str) -> (r: bool)
        requires
            self.geometry_ok(),
        ensures
            r == self.contains_spec(key@),
    {
        let fp = self.get_fingerprint(key);
        let i0 = self.get_hash_index_0(key);
        let i1 = self.get_hash_index_alt(i0, fp);
        if self.bucket_contains(i0, fp) {
            true
        } else if self.bucket_contains(i1, fp) {
            true
        } else {
            false
        }
    }
}

} // verus!
