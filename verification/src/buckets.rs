//! The mathematical model of the backing storage: a flat sequence of 64-bit
//! fingerprint slots, logically partitioned into equal-size buckets. A slot
//! value of `0` means "empty". Occupied slots of a bucket form a contiguous
//! prefix (the compaction invariant).

use vstd::prelude::*;
use vstd::multiset::Multiset;

verus! {

broadcast use vstd::multiset::group_multiset_axioms;

/// How many slots of a sequence are occupied (non-zero).
pub open spec fn count_nonzero(s: Seq<u64>) -> nat
    decreases s.len(),
{
    if s.len() == 0 {
        0
    } else {
        count_nonzero(s.drop_last()) + if s.last() != 0 {
            1nat
        } else {
            0nat
        }
    }
}

/// The multiset of fingerprints resident in a sequence of slots
/// (empty slots contribute nothing).
pub open spec fn entries(s: Seq<u64>) -> Multiset<u64>
    decreases s.len(),
{
    if s.len() == 0 {
        Multiset::empty()
    } else if s.last() == 0 {
        entries(s.drop_last())
    } else {
        entries(s.drop_last()).insert(s.last())
    }
}

/// A bucket is compacted when its occupied slots form a contiguous prefix:
/// below an empty slot there is never an occupied one.
pub open spec fn compacted(b: Seq<u64>) -> bool {
    forall|i: int, j: int| 0 <= i <= j < b.len() && b[i] == 0 ==> b[j] == 0
}

/// The bucket with index `b` inside the flat slot sequence `s`, for buckets
/// of `bs` slots each.
pub open spec fn bucket_of(s: Seq<u64>, bs: nat, b: int) -> Seq<u64> {
    s.subrange(b * bs, b * bs + bs)
}

/// A sequence never holds more occupied slots than it has slots.
pub proof fn lemma_count_le_len(s: Seq<u64>)
    ensures
        count_nonzero(s) <= s.len(),
    decreases s.len(),
{
    if s.len() > 0 {
        lemma_count_le_len(s.drop_last());
    }
}

/// An all-empty sequence holds no occupied slot and no fingerprint.
pub proof fn lemma_all_zero(s: Seq<u64>)
    requires
        forall|i: int| 0 <= i < s.len() ==> s[i] == 0,
    ensures
        count_nonzero(s) == 0,
        entries(s) == Multiset::<u64>::empty(),
    decreases s.len(),
{
    if s.len() > 0 {
        assert(forall|i: int| 0 <= i < s.drop_last().len() ==> s.drop_last()[i] == 0);
        lemma_all_zero(s.drop_last());
    }
}

/// In a compacted bucket, a slot is occupied exactly when its position lies
/// below the bucket's occupied count.
pub proof fn lemma_compacted_count(b: Seq<u64>)
    requires
        compacted(b),
    ensures
        forall|i: int| 0 <= i < b.len() ==> ((b[i] != 0) <==> i < count_nonzero(b)),
    decreases b.len(),
{
    if b.len() > 0 {
        let d = b.drop_last();
        let n = b.len() - 1;
        assert forall|i: int, j: int| 0 <= i <= j < d.len() && d[i] == 0 implies d[j] == 0 by {
            assert(b[i] == d[i]);
            assert(b[j] == d[j]);
        }
        lemma_compacted_count(d);
        lemma_count_le_len(d);
        let c = count_nonzero(d);
        if b.last() != 0 {
            // Nothing below an occupied last slot can be empty.
            assert forall|i: int| 0 <= i < n implies d[i] != 0 by {
                if b[i] == 0 {
                    assert(b[n] == 0);
                }
            }
            assert(c == n) by {
                if c < n {
                    assert(d[c as int] != 0);
                }
            }
            assert(count_nonzero(b) == n + 1);
            assert forall|i: int| 0 <= i < b.len() implies ((b[i] != 0) <==> i < count_nonzero(
                b,
            )) by {
                if i < n {
                    assert(b[i] == d[i]);
                } else {
                    assert(b[i] == b.last());
                }
            }
        } else {
            assert(count_nonzero(b) == c);
            assert(c <= n);
            assert forall|i: int| 0 <= i < b.len() implies ((b[i] != 0) <==> i < count_nonzero(
                b,
            )) by {
                if i < n {
                    assert(b[i] == d[i]);
                } else {
                    assert(b[i] == b.last());
                }
            }
        }
    }
}

/// A sequence whose occupied slots are exactly the positions below `l` is
/// compacted and holds `l` occupied slots.
pub proof fn lemma_count_of_prefix(b: Seq<u64>, l: int)
    requires
        0 <= l <= b.len(),
        forall|t: int| 0 <= t < b.len() ==> ((b[t] != 0) <==> t < l),
    ensures
        count_nonzero(b) == l,
        compacted(b),
    decreases b.len(),
{
    assert forall|i: int, j: int| 0 <= i <= j < b.len() && b[i] == 0 implies b[j] == 0 by {
        assert(i >= l);
    }
    if b.len() > 0 {
        let d = b.drop_last();
        let n = b.len() - 1;
        assert(forall|t: int| 0 <= t < n ==> d[t] == b[t]);
        if b.last() != 0 {
            assert(b[n] != 0);
            lemma_count_of_prefix(d, n);
        } else {
            assert(b[n] == 0);
            lemma_count_of_prefix(d, l);
        }
    }
}

/// An occupied slot's value is resident: the entries multiset counts it.
pub proof fn lemma_entries_mem(s: Seq<u64>, i: int)
    requires
        0 <= i < s.len(),
        s[i] != 0,
    ensures
        entries(s).count(s[i]) >= 1,
    decreases s.len(),
{
    if i == s.len() - 1 {
        assert(s.last() == s[i]);
    } else {
        lemma_entries_mem(s.drop_last(), i);
        assert(s.drop_last()[i] == s[i]);
    }
}

/// Overwriting one slot changes the resident fingerprints and the occupied
/// count in the evident way.
pub proof fn lemma_entries_update(s: Seq<u64>, i: int, x: u64)
    requires
        0 <= i < s.len(),
    ensures
        s[i] == 0 && x == 0 ==> entries(s.update(i, x)) == entries(s),
        s[i] == 0 && x != 0 ==> entries(s.update(i, x)) == entries(s).insert(x),
        s[i] != 0 && x == 0 ==> entries(s.update(i, x)) == entries(s).remove(s[i]),
        s[i] != 0 && x != 0 ==> entries(s.update(i, x)) == entries(s).remove(s[i]).insert(x),
        count_nonzero(s.update(i, x)) + (if s[i] != 0 { 1int } else { 0int }) == count_nonzero(s)
            + (if x != 0 { 1int } else { 0int }),
    decreases s.len(),
{
    let u = s.update(i, x);
    if i == s.len() - 1 {
        assert(u.drop_last() =~= s.drop_last());
        assert(u.last() == x);
        assert(s.last() == s[i]);
        if s[i] != 0 && x != 0 {
            assert(entries(s.drop_last()).insert(s[i]).remove(s[i]).insert(x) =~= entries(
                s.drop_last(),
            ).insert(x));
        } else if s[i] != 0 && x == 0 {
            assert(entries(s.drop_last()).insert(s[i]).remove(s[i]) =~= entries(s.drop_last()));
        }
    } else {
        let d = s.drop_last();
        lemma_entries_update(d, i, x);
        assert(u.drop_last() =~= d.update(i, x));
        assert(u.last() == s.last());
        assert(d[i] == s[i]);
        if s.last() != 0 {
            let e = entries(d);
            if s[i] != 0 && x != 0 {
                lemma_entries_mem(d, i);
                assert(e.remove(s[i]).insert(x).insert(s.last()) =~= e.insert(
                    s.last(),
                ).remove(s[i]).insert(x));
            } else if s[i] != 0 && x == 0 {
                lemma_entries_mem(d, i);
                assert(e.remove(s[i]).insert(s.last()) =~= e.insert(s.last()).remove(s[i]));
            } else if s[i] == 0 && x != 0 {
                assert(e.insert(x).insert(s.last()) =~= e.insert(s.last()).insert(x));
            }
        }
    }
}

/// Writing into slot `j` of bucket `b` updates that bucket pointwise and
/// leaves every other bucket as it was.
pub proof fn lemma_bucket_update(s: Seq<u64>, bs: nat, b: int, j: int, x: u64)
    requires
        bs >= 1,
        0 <= b,
        (b + 1) * bs <= s.len(),
        0 <= j < bs,
    ensures
        bucket_of(s.update(b * bs + j, x), bs, b) == bucket_of(s, bs, b).update(j, x),
        forall|b2: int|
            0 <= b2 && (b2 + 1) * bs <= s.len() && b2 != b ==> bucket_of(
                s.update(b * bs + j, x),
                bs,
                b2,
            ) == bucket_of(s, bs, b2),
        bucket_of(s, bs, b)[j] == s[b * bs + j],
        bucket_of(s, bs, b).len() == bs,
{
    let k = b * bs + j;
    assert((b + 1) * bs == b * bs + bs) by (nonlinear_arith);
    assert(0 <= b * bs) by (nonlinear_arith)
        requires
            0 <= b,
            bs >= 1,
    ;
    let u = s.update(k, x);
    assert(bucket_of(u, bs, b) =~= bucket_of(s, bs, b).update(j, x));
    assert forall|b2: int| 0 <= b2 && (b2 + 1) * bs <= s.len() && b2 != b implies bucket_of(
        u,
        bs,
        b2,
    ) == bucket_of(s, bs, b2) by {
        assert((b2 + 1) * bs == b2 * bs + bs) by (nonlinear_arith);
        assert(0 <= b2 * bs) by (nonlinear_arith)
            requires
                0 <= b2,
                bs >= 1,
        ;
        if b2 < b {
            assert((b2 + 1) * bs <= b * bs) by (nonlinear_arith)
                requires
                    b2 + 1 <= b,
                    bs >= 1,
            ;
        } else {
            assert((b + 1) * bs <= b2 * bs) by (nonlinear_arith)
                requires
                    b + 1 <= b2,
                    bs >= 1,
            ;
        }
        assert(bucket_of(u, bs, b2) =~= bucket_of(s, bs, b2));
    }
}

} // verus!
