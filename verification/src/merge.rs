//! Sort-merge variant.
//!
//! All records of a file are sorted by `(hash, offset)` ascending; the two
//! sorted record streams are then merged hash by hash.  A run of equal
//! hashes on one side only, or a longer run on one side, yields one excess
//! entry with the run's length difference and the run's first offset —
//! which, by the sort order, is the fingerprint's minimum offset.  This
//! variant compares counts and does not honor `ignore_occurences`.

use crate::codec::HashOffset;
use crate::counts::{hash_count, rep_offset};
use crate::engine::{rec_entry_for, reports, side_entries};
use crate::sort::{lemma_multiset_eq_by_membership, lemma_sort_entries_props,
    lemma_sort_preserves_distinct, lemma_sorted_entries_unique, sort_entries};
use vstd::prelude::*;
use vstd::seq_lib::group_to_multiset_ensures;

verus! {

/// `(hash, offset)` lexicographic order.
pub open spec fn record_le(a: HashOffset, b: HashOffset) -> bool {
    a.0 < b.0 || (a.0 == b.0 && a.1 <= b.1)
}

/// Records in ascending `(hash, offset)` order.
pub open spec fn records_sorted(s: Seq<HashOffset>) -> bool {
    forall|k1: int, k2: int| 0 <= k1 < k2 < s.len() ==> record_le(#[trigger] s[k1], #[trigger] s[k2])
}

/// Place `r` after every record not above it.
pub open spec fn insert_record(s: Seq<HashOffset>, r: HashOffset) -> Seq<HashOffset>
    decreases s.len(),
{
    if s.len() == 0 {
        seq![r]
    } else if record_le(s.last(), r) {
        s.push(r)
    } else {
        insert_record(s.drop_last(), r).push(s.last())
    }
}

/// Insertion sort of the records, in order of appearance.
pub open spec fn sort_records(s: Seq<HashOffset>) -> Seq<HashOffset>
    decreases s.len(),
{
    if s.len() == 0 {
        Seq::empty()
    } else {
        insert_record(sort_records(s.drop_last()), s.last())
    }
}

/// No record of `rs` carries fingerprint `h`.
pub proof fn lemma_hash_count_absent(rs: Seq<HashOffset>, h: u64)
    requires
        forall|j: int| 0 <= j < rs.len() ==> (#[trigger] rs[j]).0 != h,
    ensures
        hash_count(rs, h) == 0,
    decreases rs.len(),
{
    if rs.len() > 0 {
        let pre = rs.drop_last();
        assert(forall|j: int| 0 <= j < pre.len() ==> pre[j] == rs[j]);
        lemma_hash_count_absent(pre, h);
    }
}

/// A record with fingerprint `h` makes the count positive.
pub proof fn lemma_hash_count_present(rs: Seq<HashOffset>, h: u64, j: int)
    requires
        0 <= j < rs.len(),
        rs[j].0 == h,
    ensures
        hash_count(rs, h) > 0,
    decreases rs.len(),
{
    if j < rs.len() - 1 {
        let pre = rs.drop_last();
        assert(pre[j] == rs[j]);
        lemma_hash_count_present(pre, h, j);
    }
}

/// Counting splits over concatenation.
pub proof fn lemma_hash_count_concat(s1: Seq<HashOffset>, s2: Seq<HashOffset>, h: u64)
    ensures
        hash_count(s1 + s2, h) == hash_count(s1, h) + hash_count(s2, h),
    decreases s2.len(),
{
    if s2.len() == 0 {
        assert(s1 + s2 =~= s1);
    } else {
        assert((s1 + s2).drop_last() =~= s1 + s2.drop_last());
        assert((s1 + s2).last() == s2.last());
        lemma_hash_count_concat(s1, s2.drop_last(), h);
    }
}

/// A run of records all carrying `h` counts its length.
pub proof fn lemma_hash_count_uniform(rs: Seq<HashOffset>, h: u64)
    requires
        forall|j: int| 0 <= j < rs.len() ==> (#[trigger] rs[j]).0 == h,
    ensures
        hash_count(rs, h) == rs.len(),
    decreases rs.len(),
{
    if rs.len() > 0 {
        let pre = rs.drop_last();
        assert(forall|j: int| 0 <= j < pre.len() ==> pre[j] == rs[j]);
        lemma_hash_count_uniform(pre, h);
    }
}

/// The representative offset is a lower bound on every occurrence.
pub proof fn lemma_rep_offset_min(rs: Seq<HashOffset>, h: u64, j: int)
    requires
        0 <= j < rs.len(),
        rs[j].0 == h,
    ensures
        rep_offset(rs, h) <= rs[j].1,
    decreases rs.len(),
{
    let pre = rs.drop_last();
    if j < rs.len() - 1 {
        assert(pre[j] == rs[j]);
        lemma_rep_offset_min(pre, h, j);
        lemma_hash_count_present(pre, h, j);
    }
}

/// Inserting keeps the records sorted and only adds the one record: the
/// fingerprint counts and representative offsets of the result are those
/// of pushing the record at the end.
pub proof fn lemma_insert_record_props(s: Seq<HashOffset>, r: HashOffset)
    requires
        records_sorted(s),
    ensures
        records_sorted(insert_record(s, r)),
        insert_record(s, r).to_multiset() == s.to_multiset().insert(r),
        insert_record(s, r).len() == s.len() + 1,
        forall|h: u64| #[trigger] hash_count(insert_record(s, r), h) == hash_count(s.push(r), h),
        forall|h: u64| #[trigger] rep_offset(insert_record(s, r), h) == rep_offset(s.push(r), h),
    decreases s.len(),
{
    broadcast use group_to_multiset_ensures;

    let out = insert_record(s, r);
    if s.len() == 0 {
        assert(seq![r] =~= Seq::<HashOffset>::empty().push(r));
        assert(s.push(r) =~= seq![r]);
        assert(out.to_multiset() == Seq::<HashOffset>::empty().to_multiset().insert(r));
        assert(s.to_multiset() == Seq::<HashOffset>::empty().to_multiset());
    } else if record_le(s.last(), r) {
        assert forall|k1: int, k2: int|
            0 <= k1 < k2 < out.len() implies record_le(out[k1], out[k2]) by {
            if k2 < s.len() {
                assert(record_le(s[k1], s[k2]));
            } else {
                if k1 < s.len() - 1 {
                    assert(record_le(s[k1], s[s.len() - 1]));
                }
            }
        }
    } else {
        let pre = s.drop_last();
        assert(records_sorted(pre)) by {
            assert(forall|k: int| 0 <= k < pre.len() ==> pre[k] == s[k]);
        }
        lemma_insert_record_props(pre, r);
        let ins = insert_record(pre, r);
        assert forall|k: int| 0 <= k < ins.len() implies record_le(ins[k], s.last()) by {
            assert(ins.to_multiset().contains(ins[k]));
            assert(ins.contains(ins[k]));
            if ins[k] == r {
            } else {
                assert(pre.to_multiset().contains(ins[k])) by {
                    assert(ins.to_multiset() == pre.to_multiset().insert(r));
                }
                assert(pre.contains(ins[k]));
                let j = choose|j: int| 0 <= j < pre.len() && pre[j] == ins[k];
                assert(s[j] == pre[j]);
                assert(record_le(s[j], s.last()));
            }
        }
        assert forall|k1: int, k2: int|
            0 <= k1 < k2 < out.len() implies record_le(out[k1], out[k2]) by {
            if k2 < ins.len() {
                assert(record_le(ins[k1], ins[k2]));
            } else {
                assert(out[k2] == s.last());
                assert(record_le(ins[k1], s.last()));
            }
        }
        assert(s =~= pre.push(s.last()));
        assert(s.to_multiset() == pre.to_multiset().insert(s.last()));
        assert(out.to_multiset() == ins.to_multiset().insert(s.last()));
        assert(out.to_multiset() =~= s.to_multiset().insert(r)) by {
            assert(ins.to_multiset() == pre.to_multiset().insert(r));
        }
        assert forall|h: u64| #[trigger] hash_count(out, h) == hash_count(s.push(r), h) by {
            assert(out == ins.push(s.last()));
            assert(out.drop_last() =~= ins);
            assert(out.last() == s.last());
            assert(hash_count(out, h) == hash_count(ins, h) + if s.last().0 == h {
                1nat
            } else {
                0nat
            });
            assert(hash_count(ins, h) == hash_count(pre.push(r), h));
            assert(pre.push(r).drop_last() =~= pre);
            assert(hash_count(pre.push(r), h) == hash_count(pre, h) + if r.0 == h {
                1nat
            } else {
                0nat
            });
            assert(s.push(r).drop_last() =~= s);
            assert(hash_count(s.push(r), h) == hash_count(s, h) + if r.0 == h {
                1nat
            } else {
                0nat
            });
            assert(hash_count(s, h) == hash_count(pre, h) + if s.last().0 == h {
                1nat
            } else {
                0nat
            });
        }
        assert forall|h: u64| #[trigger] rep_offset(out, h) == rep_offset(s.push(r), h) by {
            assert(out == ins.push(s.last()));
            assert(out.drop_last() =~= ins);
            assert(out.last() == s.last());
            assert(rep_offset(ins, h) == rep_offset(pre.push(r), h));
            assert(hash_count(ins, h) == hash_count(pre.push(r), h));
            assert(pre.push(r).drop_last() =~= pre);
            assert(pre.push(r).last() == r);
            assert(s.push(r).drop_last() =~= s);
            assert(s.push(r).last() == r);
            let c_pre = hash_count(pre, h);
            let m_pre = rep_offset(pre, h);
            if s.last().0 == h && r.0 == h {
                // left side: out adds `last` over pre + r
                assert(hash_count(ins, h) == c_pre + 1);
                assert(rep_offset(pre.push(r), h) == if c_pre == 0 {
                    r.1
                } else if r.1 < m_pre {
                    r.1
                } else {
                    m_pre
                });
                // right side: s.push(r) adds r over s, which adds last over pre
                assert(hash_count(s, h) == c_pre + 1);
                assert(rep_offset(s, h) == if c_pre == 0 {
                    s.last().1
                } else if s.last().1 < m_pre {
                    s.last().1
                } else {
                    m_pre
                });
            } else if s.last().0 == h {
                assert(rep_offset(pre.push(r), h) == m_pre);
                assert(hash_count(ins, h) == c_pre);
                assert(rep_offset(s, h) == if c_pre == 0 {
                    s.last().1
                } else if s.last().1 < m_pre {
                    s.last().1
                } else {
                    m_pre
                });
                assert(hash_count(s, h) == c_pre + 1);
            } else if r.0 == h {
                assert(rep_offset(out, h) == rep_offset(ins, h));
                assert(rep_offset(s, h) == m_pre);
                assert(hash_count(s, h) == c_pre);
            } else {
                assert(rep_offset(out, h) == rep_offset(ins, h));
                assert(rep_offset(s.push(r), h) == rep_offset(s, h));
                assert(rep_offset(s, h) == m_pre);
            }
        }
    }
}

/// The sorted records: ordered, the same multiset, and the same counts and
/// representative offsets as the input.
pub proof fn lemma_sort_records_props(s: Seq<HashOffset>)
    ensures
        records_sorted(sort_records(s)),
        sort_records(s).to_multiset() == s.to_multiset(),
        sort_records(s).len() == s.len(),
        forall|h: u64| #[trigger] hash_count(sort_records(s), h) == hash_count(s, h),
        forall|h: u64| #[trigger] rep_offset(sort_records(s), h) == rep_offset(s, h),
    decreases s.len(),
{
    broadcast use group_to_multiset_ensures;

    if s.len() > 0 {
        let pre = s.drop_last();
        lemma_sort_records_props(pre);
        lemma_insert_record_props(sort_records(pre), s.last());
        assert(s =~= pre.push(s.last()));
        assert(s.to_multiset() == pre.to_multiset().insert(s.last()));
        let sp = sort_records(pre);
        assert(sort_records(s) == insert_record(sp, s.last()));
        assert forall|h: u64| #[trigger] hash_count(sort_records(s), h) == hash_count(s, h) by {
            assert(hash_count(insert_record(sp, s.last()), h) == hash_count(
                sp.push(s.last()),
                h,
            ));
            assert(sp.push(s.last()).drop_last() =~= sp);
            assert(sp.push(s.last()).last() == s.last());
            assert(hash_count(sp, h) == hash_count(pre, h));
            assert(s.drop_last() == pre);
        }
        assert forall|h: u64| #[trigger] rep_offset(sort_records(s), h) == rep_offset(s, h) by {
            assert(rep_offset(insert_record(sp, s.last()), h) == rep_offset(sp.push(s.last()), h));
            assert(sp.push(s.last()).drop_last() =~= sp);
            assert(sp.push(s.last()).last() == s.last());
            assert(hash_count(sp, h) == hash_count(pre, h));
            assert(rep_offset(sp, h) == rep_offset(pre, h));
            assert(s.drop_last() == pre);
        }
    }
}

/// Sorting keeps record offsets pairwise distinct.
pub proof fn lemma_sort_records_distinct(s: Seq<HashOffset>)
    requires
        forall|j1: int, j2: int| 0 <= j1 < j2 < s.len() ==> (#[trigger] s[j1]).1 != (#[trigger] s[j2]).1,
    ensures
        forall|j1: int, j2: int|
            0 <= j1 < j2 < sort_records(s).len() ==> (#[trigger] sort_records(s)[j1]).1 != (
            #[trigger] sort_records(s)[j2]).1,
{
    broadcast use group_to_multiset_ensures;

    lemma_sort_records_props(s);
    let t = sort_records(s);
    assert(s.no_duplicates()) by {
        assert forall|j1: int, j2: int|
            0 <= j1 < j2 < s.len() implies #[trigger] s[j1] != #[trigger] s[j2] by {
            assert(s[j1].1 != s[j2].1);
        }
    }
    s.lemma_multiset_has_no_duplicates();
    t.lemma_multiset_has_no_duplicates_conv();
    assert forall|j1: int, j2: int| 0 <= j1 < j2 < t.len() implies (#[trigger] t[j1]).1 != (
    #[trigger] t[j2]).1 by {
        if t[j1].1 == t[j2].1 {
            assert(t[j1] != t[j2]);
            assert(t.to_multiset().contains(t[j1]));
            assert(t.to_multiset().contains(t[j2]));
            assert(s.contains(t[j1]));
            assert(s.contains(t[j2]));
            let i1 = choose|i: int| 0 <= i < s.len() && s[i] == t[j1];
            let i2 = choose|i: int| 0 <= i < s.len() && s[i] == t[j2];
            assert(i1 != i2);
            if i1 < i2 {
                assert(s[i1].1 != s[i2].1);
            } else {
                assert(s[i2].1 != s[i1].1);
            }
        }
    }
}

/// Does `p` order strictly after `r`?
fn record_above(p: HashOffset, r: HashOffset) -> (b: bool)
    ensures
        b == !record_le(p, r),
{
    p.0 > r.0 || (p.0 == r.0 && p.1 > r.1)
}

/// Sort a file's records by `(hash, offset)` ascending.
pub fn sort_records_by_key(v: &Vec<HashOffset>) -> (out: Vec<HashOffset>)
    ensures
        out@ == sort_records(v@),
{
    let n = v.len();
    let mut out: Vec<HashOffset> = Vec::new();
    let mut i: usize = 0;
    while i < n
        invariant
            i <= n,
            n == v@.len(),
            out@ == sort_records(v@.take(i as int)),
            records_sorted(out@),
        decreases n - i,
    {
        let r = *vstd::slice::slice_index_get(v.as_slice(), i);
        proof {
            assert(v@.take(i + 1).drop_last() =~= v@.take(i as int));
            assert(v@.take(i + 1).last() == r);
        }
        let ghost out0 = out@;
        let mut j = out.len();
        while j > 0 && record_above(out[j - 1], r)
            invariant
                j <= out@.len(),
                out@ == out0,
                records_sorted(out@),
                forall|k: int| j <= k < out@.len() ==> !record_le(#[trigger] out@[k], r),
            decreases j,
        {
            j = j - 1;
        }
        proof {
            assert forall|k: int| 0 <= k < j implies record_le(out0[k], r) by {
                if k < j - 1 {
                    assert(record_le(out0[k], out0[j - 1]));
                }
            }
            lemma_insert_record_split(out0, r, j as int);
            lemma_insert_record_props(out0, r);
        }
        out.insert(j, r);
        proof {
            assert(out@ =~= out0.subrange(0, j as int) + seq![r] + out0.subrange(
                j as int,
                out0.len() as int,
            ));
        }
        i = i + 1;
    }
    proof {
        assert(v@.take(n as int) =~= v@);
    }
    out
}

/// Where the spec insertion lands: after the records not above `r`, before
/// the rest.
proof fn lemma_insert_record_split(s: Seq<HashOffset>, r: HashOffset, j: int)
    requires
        records_sorted(s),
        0 <= j <= s.len(),
        forall|k: int| 0 <= k < j ==> record_le(#[trigger] s[k], r),
        forall|k: int| j <= k < s.len() ==> !record_le(#[trigger] s[k], r),
    ensures
        insert_record(s, r) == s.subrange(0, j) + seq![r] + s.subrange(j, s.len() as int),
    decreases s.len(),
{
    if s.len() == 0 {
        assert(insert_record(s, r) =~= s.subrange(0, j) + seq![r] + s.subrange(j, s.len() as int));
    } else if record_le(s.last(), r) {
        assert(j == s.len());
        assert(insert_record(s, r) =~= s.subrange(0, j) + seq![r] + s.subrange(j, s.len() as int));
    } else {
        let pre = s.drop_last();
        assert(records_sorted(pre) && j <= pre.len()) by {
            assert(forall|k: int| 0 <= k < pre.len() ==> pre[k] == s[k]);
            if j == s.len() {
                assert(record_le(s[j - 1], r));
            }
        }
        assert(forall|k: int| 0 <= k < j ==> record_le(#[trigger] pre[k], r)) by {
            assert(forall|k: int| 0 <= k < j ==> pre[k] == s[k]);
        }
        assert(forall|k: int| j <= k < pre.len() ==> !record_le(#[trigger] pre[k], r)) by {
            assert(forall|k: int| 0 <= k < pre.len() ==> pre[k] == s[k]);
        }
        lemma_insert_record_split(pre, r, j);
        assert(insert_record(s, r) =~= s.subrange(0, j) + seq![r] + s.subrange(j, s.len() as int))
            by {
            assert(pre.subrange(0, j) =~= s.subrange(0, j));
            assert(pre.subrange(j, pre.len() as int) =~= s.subrange(j, s.len() - 1));
        }
    }
}

/// A full leading-edge run `[i, j)` of one fingerprint: its length is the
/// whole file's count of that fingerprint and its first offset is the
/// representative offset.
pub proof fn lemma_run_analysis(v: Seq<HashOffset>, i: int, j: int)
    requires
        records_sorted(v),
        0 <= i < j <= v.len(),
        forall|k: int| 0 <= k < i ==> (#[trigger] v[k]).0 < v[i].0,
        forall|k: int| i <= k < j ==> (#[trigger] v[k]).0 == v[i].0,
        j < v.len() ==> v[j].0 != v[i].0,
    ensures
        hash_count(v, v[i].0) == j - i,
        rep_offset(v, v[i].0) == v[i].1,
        forall|k: int| j <= k < v.len() ==> v[i].0 < (#[trigger] v[k]).0,
{
    let h0 = v[i].0;
    assert forall|k: int| j <= k < v.len() implies h0 < (#[trigger] v[k]).0 by {
        assert(record_le(v[i], v[j]));
        assert(v[j].0 != h0);
        assert(h0 < v[j].0);
        if k > j {
            assert(record_le(v[j], v[k]));
        }
    }
    let s1 = v.subrange(0, i);
    let s2 = v.subrange(i, j);
    let s3 = v.subrange(j, v.len() as int);
    assert(v =~= (s1 + s2) + s3);
    lemma_hash_count_concat(s1 + s2, s3, h0);
    lemma_hash_count_concat(s1, s2, h0);
    assert(hash_count(s1, h0) == 0) by {
        assert(forall|k: int| 0 <= k < s1.len() ==> (#[trigger] s1[k]).0 != h0);
        lemma_hash_count_absent(s1, h0);
    }
    assert(hash_count(s2, h0) == s2.len()) by {
        assert(forall|k: int| 0 <= k < s2.len() ==> (#[trigger] s2[k]).0 == h0);
        lemma_hash_count_uniform(s2, h0);
    }
    assert(hash_count(s3, h0) == 0) by {
        assert(forall|k: int| 0 <= k < s3.len() ==> (#[trigger] s3[k]).0 != h0);
        lemma_hash_count_absent(s3, h0);
    }
    assert(hash_count(v, h0) == j - i);
    crate::engine::lemma_rep_offset_witness(v, h0);
    let m = choose|m: int|
        0 <= m < v.len() && (#[trigger] v[m]).0 == h0 && v[m].1 == rep_offset(v, h0);
    assert(i <= m < j);
    assert(record_le(v[i], v[m]));
    assert(v[i].1 <= v[m].1);
    lemma_rep_offset_min(v, h0, i);
}

/// A fingerprint strictly between the processed part and the frontier has
/// no records at all.
pub proof fn lemma_no_hash_here(v: Seq<HashOffset>, i: int, h: u64)
    requires
        records_sorted(v),
        0 <= i <= v.len(),
        forall|k: int| 0 <= k < i ==> (#[trigger] v[k]).0 < h,
        i < v.len() ==> h < v[i].0,
    ensures
        hash_count(v, h) == 0,
{
    assert forall|k: int| 0 <= k < v.len() implies (#[trigger] v[k]).0 != h by {
        if k >= i {
            assert(record_le(v[i], v[k]));
        }
    }
    lemma_hash_count_absent(v, h);
}

/// Advance to the end of the run of equal fingerprints starting at `i`.
pub fn count_and_advance(v: &Vec<HashOffset>, i: usize) -> (j: usize)
    requires
        i < v@.len(),
    ensures
        i < j <= v@.len(),
        forall|k: int| i <= k < j ==> (#[trigger] v@[k]).0 == v@[i as int].0,
        j < v@.len() ==> v@[j as int].0 != v@[i as int].0,
{
    let n = v.len();
    let h = vstd::slice::slice_index_get(v.as_slice(), i).0;
    let mut j = i + 1;
    while j < n && vstd::slice::slice_index_get(v.as_slice(), j).0 == h
        invariant
            i < j <= n,
            n == v@.len(),
            h == v@[i as int].0,
            forall|k: int| i <= k < j ==> (#[trigger] v@[k]).0 == h,
        decreases n - j,
    {
        j = j + 1;
    }
    j
}

/// Merge two sorted record streams into the two excess-entry lists.
/// This variant compares counts on both sides; `ignore_occurences` is not
/// honored here.
pub fn merge_excess(sa: &Vec<HashOffset>, sb: &Vec<HashOffset>) -> (out: (
    Vec<(u64, usize)>,
    Vec<(u64, usize)>,
))
    requires
        records_sorted(sa@),
        records_sorted(sb@),
        forall|j1: int, j2: int|
            0 <= j1 < j2 < sa@.len() ==> (#[trigger] sa@[j1]).1 != (#[trigger] sa@[j2]).1,
        forall|j1: int, j2: int|
            0 <= j1 < j2 < sb@.len() ==> (#[trigger] sb@[j1]).1 != (#[trigger] sb@[j2]).1,
    ensures
        sort_entries(out.0@) == sort_entries(side_entries(sa@, sb@, false)),
        sort_entries(out.1@) == sort_entries(side_entries(sb@, sa@, false)),
{
    let na = sa.len();
    let nb = sb.len();
    let mut out_a: Vec<(u64, usize)> = Vec::new();
    let mut out_b: Vec<(u64, usize)> = Vec::new();
    let ghost mut ha: Seq<u64> = Seq::empty();
    let ghost mut hb: Seq<u64> = Seq::empty();
    let mut ia: usize = 0;
    let mut ib: usize = 0;
    proof {
        assert forall|h: u64|
            #![trigger reports(sa@, sb@, false, h)]
            reports(sa@, sb@, false, h) && (0 == na || h < sa@[0].0) && (0 == nb || h
                < sb@[0].0) implies ha.contains(h) by {
            lemma_no_hash_here(sa@, 0, h);
        }
        assert forall|h: u64|
            #![trigger reports(sb@, sa@, false, h)]
            reports(sb@, sa@, false, h) && (0 == na || h < sa@[0].0) && (0 == nb || h
                < sb@[0].0) implies hb.contains(h) by {
            lemma_no_hash_here(sb@, 0, h);
        }
    }
    while ia < na || ib < nb
        invariant
            ia <= na,
            ib <= nb,
            na == sa@.len(),
            nb == sb@.len(),
            records_sorted(sa@),
            records_sorted(sb@),
            ia < na ==> forall|j: int| 0 <= j < ia ==> (#[trigger] sa@[j]).0 < sa@[ia as int].0,
            ib < nb ==> forall|j: int| 0 <= j < ib ==> (#[trigger] sb@[j]).0 < sb@[ib as int].0,
            ia < na ==> forall|j: int| 0 <= j < ib ==> (#[trigger] sb@[j]).0 < sa@[ia as int].0,
            ib < nb ==> forall|j: int| 0 <= j < ia ==> (#[trigger] sa@[j]).0 < sb@[ib as int].0,
            out_a@.len() == ha.len(),
            out_b@.len() == hb.len(),
            forall|k: int|
                0 <= k < ha.len() ==> reports(sa@, sb@, false, #[trigger] ha[k]) && out_a@[k]
                    == rec_entry_for(sa@, sb@, ha[k]),
            forall|k: int|
                0 <= k < hb.len() ==> reports(sb@, sa@, false, #[trigger] hb[k]) && out_b@[k]
                    == rec_entry_for(sb@, sa@, hb[k]),
            forall|k1: int, k2: int| 0 <= k1 < k2 < ha.len() ==> ha[k1] < ha[k2],
            forall|k1: int, k2: int| 0 <= k1 < k2 < hb.len() ==> hb[k1] < hb[k2],
            ia < na ==> forall|k: int| 0 <= k < ha.len() ==> (#[trigger] ha[k]) < sa@[ia as int].0,
            ib < nb ==> forall|k: int| 0 <= k < ha.len() ==> (#[trigger] ha[k]) < sb@[ib as int].0,
            ia < na ==> forall|k: int| 0 <= k < hb.len() ==> (#[trigger] hb[k]) < sa@[ia as int].0,
            ib < nb ==> forall|k: int| 0 <= k < hb.len() ==> (#[trigger] hb[k]) < sb@[ib as int].0,
            forall|h: u64|
                #![trigger reports(sa@, sb@, false, h)]
                reports(sa@, sb@, false, h) && (ia == na || h < sa@[ia as int].0) && (ib == nb || h
                    < sb@[ib as int].0) ==> ha.contains(h),
            forall|h: u64|
                #![trigger reports(sb@, sa@, false, h)]
                reports(sb@, sa@, false, h) && (ia == na || h < sa@[ia as int].0) && (ib == nb || h
                    < sb@[ib as int].0) ==> hb.contains(h),
        decreases (na - ia) + (nb - ib),
    {
        let ghost ha0 = ha;
        let ghost hb0 = hb;
        if ib == nb || (ia < na && sa[ia].0 < sb[ib].0) {
            // a run on side A alone
            let h0 = sa[ia].0;
            let ja = count_and_advance(sa, ia);
            let ca = ja - ia;
            proof {
                lemma_run_analysis(sa@, ia as int, ja as int);
                assert(hash_count(sa@, h0) == ca);
                assert(rep_offset(sa@, h0) == sa@[ia as int].1);
                lemma_no_hash_here(sb@, ib as int, h0);
                assert(hash_count(sb@, h0) == 0);
                assert(reports(sa@, sb@, false, h0));
            }
            out_a.push((sa[ia].1, ca));
            proof {
                ha = ha.push(h0);
                crate::counts::lemma_push_contains(ha0, h0);
                assert((sa@[ia as int].1, ca) == rec_entry_for(sa@, sb@, h0));
                assert forall|h: u64|
                    #![trigger reports(sa@, sb@, false, h)]
                    reports(sa@, sb@, false, h) && (ja == na || h < sa@[ja as int].0) && (ib == nb
                        || h < sb@[ib as int].0) implies ha.contains(h) by {
                    if h < h0 {
                        assert(ha0.contains(h));
                    } else if h == h0 {
                        assert(ha.last() == h0);
                    } else {
                        // no records of `h` on side A at all
                        assert forall|k: int| 0 <= k < na implies (#[trigger] sa@[k]).0 != h by {
                            if k < ia {
                            } else if k < ja {
                            } else {
                                assert(h0 < sa@[k].0);
                                assert(ja < na);
                                assert(record_le(sa@[ja as int], sa@[k]));
                            }
                        }
                        lemma_hash_count_absent(sa@, h);
                    }
                }
                assert forall|h: u64|
                    #![trigger reports(sb@, sa@, false, h)]
                    reports(sb@, sa@, false, h) && (ja == na || h < sa@[ja as int].0) && (ib == nb
                        || h < sb@[ib as int].0) implies hb.contains(h) by {
                    if !(ia == na || h < sa@[ia as int].0) {
                        // h is at or above the old frontier h0: side B has no such record
                        lemma_no_hash_here(sb@, ib as int, h);
                    }
                }
            }
            ia = ja;
        } else if ia == na || sb[ib].0 < sa[ia].0 {
            // a run on side B alone
            let h0 = sb[ib].0;
            let jb = count_and_advance(sb, ib);
            let cb = jb - ib;
            proof {
                lemma_run_analysis(sb@, ib as int, jb as int);
                lemma_no_hash_here(sa@, ia as int, h0);
                assert(reports(sb@, sa@, false, h0));
            }
            out_b.push((sb[ib].1, cb));
            proof {
                hb = hb.push(h0);
                crate::counts::lemma_push_contains(hb0, h0);
                assert((sb@[ib as int].1, cb) == rec_entry_for(sb@, sa@, h0));
                assert forall|h: u64|
                    #![trigger reports(sb@, sa@, false, h)]
                    reports(sb@, sa@, false, h) && (ia == na || h < sa@[ia as int].0) && (jb == nb
                        || h < sb@[jb as int].0) implies hb.contains(h) by {
                    if h < h0 {
                        assert(hb0.contains(h));
                    } else if h == h0 {
                        assert(hb.last() == h0);
                    } else {
                        assert forall|k: int| 0 <= k < nb implies (#[trigger] sb@[k]).0 != h by {
                            if k < ib {
                            } else if k < jb {
                            } else {
                                assert(h0 < sb@[k].0);
                                assert(jb < nb);
                                assert(record_le(sb@[jb as int], sb@[k]));
                            }
                        }
                        lemma_hash_count_absent(sb@, h);
                    }
                }
                assert forall|h: u64|
                    #![trigger reports(sa@, sb@, false, h)]
                    reports(sa@, sb@, false, h) && (ia == na || h < sa@[ia as int].0) && (jb == nb
                        || h < sb@[jb as int].0) implies ha.contains(h) by {
                    if !(ib == nb || h < sb@[ib as int].0) {
                        lemma_no_hash_here(sa@, ia as int, h);
                    }
                }
            }
            ib = jb;
        } else {
            // the same fingerprint on both sides: compare run lengths
            let h0 = sa[ia].0;
            let ja = count_and_advance(sa, ia);
            let jb = count_and_advance(sb, ib);
            let ca = ja - ia;
            let cb = jb - ib;
            proof {
                assert(sb@[ib as int].0 == h0);
                lemma_run_analysis(sa@, ia as int, ja as int);
                lemma_run_analysis(sb@, ib as int, jb as int);
                assert(hash_count(sa@, h0) == ca);
                assert(hash_count(sb@, h0) == cb);
            }
            if ca > cb {
                out_a.push((sa[ia].1, ca - cb));
                proof {
                    ha = ha.push(h0);
                    crate::counts::lemma_push_contains(ha0, h0);
                    assert((sa@[ia as int].1, (ca - cb) as usize) == rec_entry_for(
                        sa@,
                        sb@,
                        h0,
                    ));
                }
            } else if cb > ca {
                out_b.push((sb[ib].1, cb - ca));
                proof {
                    hb = hb.push(h0);
                    crate::counts::lemma_push_contains(hb0, h0);
                    assert((sb@[ib as int].1, (cb - ca) as usize) == rec_entry_for(
                        sb@,
                        sa@,
                        h0,
                    ));
                }
            }
            proof {
                assert forall|h: u64|
                    #![trigger reports(sa@, sb@, false, h)]
                    reports(sa@, sb@, false, h) && (ja == na || h < sa@[ja as int].0) && (jb == nb
                        || h < sb@[jb as int].0) implies ha.contains(h) by {
                    if h < h0 {
                        assert(ha0.contains(h));
                    } else if h == h0 {
                        assert(ca > cb);
                        assert(ha.last() == h0);
                    } else {
                        assert forall|k: int| 0 <= k < na implies (#[trigger] sa@[k]).0 != h by {
                            if ia <= k && k >= ja {
                                assert(h0 < sa@[k].0);
                                assert(ja < na);
                                assert(record_le(sa@[ja as int], sa@[k]));
                            }
                        }
                        lemma_hash_count_absent(sa@, h);
                    }
                }
                assert forall|h: u64|
                    #![trigger reports(sb@, sa@, false, h)]
                    reports(sb@, sa@, false, h) && (ja == na || h < sa@[ja as int].0) && (jb == nb
                        || h < sb@[jb as int].0) implies hb.contains(h) by {
                    if h < h0 {
                        assert(hb0.contains(h));
                    } else if h == h0 {
                        assert(cb > ca);
                        assert(hb.last() == h0);
                    } else {
                        assert forall|k: int| 0 <= k < nb implies (#[trigger] sb@[k]).0 != h by {
                            if ib <= k && k >= jb {
                                assert(h0 < sb@[k].0);
                                assert(jb < nb);
                                assert(record_le(sb@[jb as int], sb@[k]));
                            }
                        }
                        lemma_hash_count_absent(sb@, h);
                    }
                }
            }
            ia = ja;
            ib = jb;
        }
    }
    proof {
        lemma_merge_output_matches(sa@, sb@, out_a@, ha);
        lemma_merge_output_matches(sb@, sa@, out_b@, hb);
    }
    (out_a, out_b)
}

/// An output list holding exactly one entry per reported fingerprint, in
/// ascending fingerprint order, sorts to the side's specified entries.
proof fn lemma_merge_output_matches(
    own: Seq<HashOffset>,
    other: Seq<HashOffset>,
    out: Seq<(u64, usize)>,
    hs: Seq<u64>,
)
    requires
        forall|j1: int, j2: int|
            0 <= j1 < j2 < own.len() ==> (#[trigger] own[j1]).1 != (#[trigger] own[j2]).1,
        out.len() == hs.len(),
        forall|k: int|
            0 <= k < hs.len() ==> reports(own, other, false, #[trigger] hs[k]) && out[k]
                == rec_entry_for(own, other, hs[k]),
        forall|k1: int, k2: int| 0 <= k1 < k2 < hs.len() ==> hs[k1] < hs[k2],
        forall|h: u64| #[trigger] reports(own, other, false, h) ==> hs.contains(h),
    ensures
        sort_entries(out) == sort_entries(side_entries(own, other, false)),
{
    let g = side_entries(own, other, false);
    crate::engine::lemma_rep_offsets_injective(own);
    assert(forall|j: int| 0 <= j < own.len() ==> (#[trigger] own[j]).1 < u64::MAX as int + 1);
    crate::engine::lemma_side_entries_props_gen(own, other, false, u64::MAX as int + 1);
    assert forall|e: (u64, usize)| #[trigger] out.contains(e) implies g.contains(e) by {
        let k = choose|k: int| 0 <= k < out.len() && out[k] == e;
        crate::engine::lemma_side_entries_contains(own, other, false, hs[k]);
    }
    assert forall|e: (u64, usize)| #[trigger] g.contains(e) implies out.contains(e) by {
        let k = choose|k: int| 0 <= k < g.len() && g[k] == e;
        let h = crate::engine::side_entry_origin(own, other, false, k);
        assert(hs.contains(h));
        let m = choose|m: int| 0 <= m < hs.len() && hs[m] == h;
        assert(out[m] == rec_entry_for(own, other, h));
        assert(out[m] == e);
    }
    assert forall|k1: int, k2: int| 0 <= k1 < k2 < out.len() implies out[k1] != out[k2] by {
        assert(hs[k1] != hs[k2]);
        assert(out[k1].0 == rep_offset(own, hs[k1]));
        assert(out[k2].0 == rep_offset(own, hs[k2]));
        assert(rep_offset(own, hs[k1]) != rep_offset(own, hs[k2]));
    }
    assert forall|k1: int, k2: int| 0 <= k1 < k2 < g.len() implies g[k1] != g[k2] by {
        assert(g[k1].0 != g[k2].0);
    }
    lemma_multiset_eq_by_membership(g, out);
    lemma_sort_entries_props(g);
    lemma_sort_entries_props(out);
    lemma_sort_preserves_distinct(g);
    lemma_sorted_entries_unique(sort_entries(g), sort_entries(out));
}

} // verus!
