//! Hash partitioning.
//!
//! In the external variant every record is routed to one of
//! `NUM_PARTITIONS` buckets by `hash mod NUM_PARTITIONS`.  All records with
//! one fingerprint land in one bucket, so per-bucket counts and
//! representative offsets agree with the whole file's, and partitions can
//! be reduced independently.

use crate::codec::HashOffset;
use crate::counts::{hash_count, rep_offset};
use vstd::prelude::*;

verus! {

pub const NUM_PARTITIONS: u64 = 256;

/// The records of `rs` whose fingerprint falls in residue class `i`, in
/// their original order.
pub open spec fn bucket_of(rs: Seq<HashOffset>, i: u64) -> Seq<HashOffset>
    decreases rs.len(),
{
    if rs.len() == 0 {
        Seq::empty()
    } else {
        let pre = bucket_of(rs.drop_last(), i);
        if rs.last().0 % NUM_PARTITIONS == i {
            pre.push(rs.last())
        } else {
            pre
        }
    }
}

/// A bucket holds a fingerprint's full record population when the
/// fingerprint belongs to it, and none of it otherwise; the representative
/// offset carries over unchanged.
pub proof fn lemma_bucket_count(rs: Seq<HashOffset>, h: u64, i: u64)
    ensures
        hash_count(bucket_of(rs, i), h) == if h % NUM_PARTITIONS == i {
            hash_count(rs, h)
        } else {
            0
        },
        h % NUM_PARTITIONS == i ==> rep_offset(bucket_of(rs, i), h) == rep_offset(rs, h),
    decreases rs.len(),
{
    if rs.len() > 0 {
        let pre = rs.drop_last();
        lemma_bucket_count(pre, h, i);
        if rs.last().0 % NUM_PARTITIONS == i {
            assert(bucket_of(rs, i) == bucket_of(pre, i).push(rs.last()));
            assert(bucket_of(rs, i).drop_last() =~= bucket_of(pre, i));
        }
    }
}

/// A bucket is drawn from the records.
pub proof fn lemma_bucket_sub(rs: Seq<HashOffset>, i: u64)
    ensures
        forall|e: HashOffset| #[trigger] bucket_of(rs, i).contains(e) ==> rs.contains(e),
    decreases rs.len(),
{
    if rs.len() > 0 {
        let pre = rs.drop_last();
        lemma_bucket_sub(pre, i);
        assert forall|e: HashOffset| #[trigger] bucket_of(rs, i).contains(e) implies rs.contains(
            e,
        ) by {
            let b = bucket_of(rs, i);
            let k = choose|k: int| 0 <= k < b.len() && b[k] == e;
            if rs.last().0 % NUM_PARTITIONS == i && k == b.len() - 1 {
                assert(rs[rs.len() - 1] == e);
            } else {
                assert(bucket_of(pre, i).contains(e));
                let j = choose|j: int| 0 <= j < pre.len() && pre[j] == e;
                assert(rs[j] == e);
            }
        }
    }
}

/// Bucketing keeps record order, so strictly increasing offsets stay
/// strictly increasing.
pub proof fn lemma_bucket_offsets_increasing(rs: Seq<HashOffset>, i: u64)
    requires
        forall|j1: int, j2: int| 0 <= j1 < j2 < rs.len() ==> (#[trigger] rs[j1]).1 < (#[trigger] rs[j2]).1,
    ensures
        forall|j1: int, j2: int|
            0 <= j1 < j2 < bucket_of(rs, i).len() ==> (#[trigger] bucket_of(rs, i)[j1]).1 < (
            #[trigger] bucket_of(rs, i)[j2]).1,
    decreases rs.len(),
{
    if rs.len() > 0 {
        let pre = rs.drop_last();
        assert(forall|j1: int, j2: int|
            0 <= j1 < j2 < pre.len() ==> (#[trigger] pre[j1]).1 < (#[trigger] pre[j2]).1) by {
            assert(forall|j: int| 0 <= j < pre.len() ==> pre[j] == rs[j]);
        }
        lemma_bucket_offsets_increasing(pre, i);
        lemma_bucket_sub(pre, i);
        if rs.last().0 % NUM_PARTITIONS == i {
            let b = bucket_of(rs, i);
            let bp = bucket_of(pre, i);
            assert forall|j1: int, j2: int| 0 <= j1 < j2 < b.len() implies (#[trigger] b[j1]).1 < (
            #[trigger] b[j2]).1 by {
                if j2 < bp.len() {
                    assert(bp[j1].1 < bp[j2].1);
                } else {
                    assert(b[j2] == rs.last());
                    assert(bp.contains(bp[j1]));
                    assert(pre.contains(bp[j1]));
                    let m = choose|m: int| 0 <= m < pre.len() && pre[m] == bp[j1];
                    assert(rs[m] == bp[j1]);
                    assert(rs[m].1 < rs[rs.len() - 1].1);
                }
            }
        }
    }
}

/// Route every record to its bucket.
pub fn partition_records(records: &Vec<HashOffset>) -> (parts: Vec<Vec<HashOffset>>)
    ensures
        parts@.len() == NUM_PARTITIONS,
        forall|i: int|
            0 <= i < NUM_PARTITIONS ==> (#[trigger] parts@[i])@ == bucket_of(records@, i as u64),
{
    let mut parts: Vec<Vec<HashOffset>> = Vec::new();
    let mut i: u64 = 0;
    while i < NUM_PARTITIONS
        invariant
            i <= NUM_PARTITIONS,
            parts@.len() == i,
            forall|j: int| 0 <= j < i ==> (#[trigger] parts@[j])@ == bucket_of(records@, j as u64),
        decreases NUM_PARTITIONS - i,
    {
        let mut bucket: Vec<HashOffset> = Vec::new();
        let n = records.len();
        let mut k: usize = 0;
        while k < n
            invariant
                k <= n,
                n == records@.len(),
                bucket@ == bucket_of(records@.take(k as int), i),
            decreases n - k,
        {
            let r = *vstd::slice::slice_index_get(records.as_slice(), k);
            proof {
                assert(records@.take(k + 1).drop_last() =~= records@.take(k as int));
                assert(records@.take(k + 1).last() == r);
            }
            if r.0 % NUM_PARTITIONS == i {
                bucket.push(r);
            }
            k = k + 1;
        }
        proof {
            assert(records@.take(n as int) =~= records@);
        }
        parts.push(bucket);
        i = i + 1;
    }
    parts
}

} // verus!
