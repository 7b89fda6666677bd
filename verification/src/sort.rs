//! Sorting of excess entries by offset.
//!
//! Retrieval reads representative lines in ascending offset order, which is
//! also ascending line-number order.  The sort is stable, but every offset
//! a comparison produces is distinct, so the sorted sequence is unique.

use vstd::prelude::*;
use vstd::seq_lib::group_to_multiset_ensures;

verus! {

/// Entries in ascending offset order.
pub open spec fn entries_sorted(s: Seq<(u64, usize)>) -> bool {
    forall|k1: int, k2: int| 0 <= k1 < k2 < s.len() ==> s[k1].0 <= s[k2].0
}

/// No two entries share an offset.
pub open spec fn entries_distinct(s: Seq<(u64, usize)>) -> bool {
    forall|k1: int, k2: int| 0 <= k1 < k2 < s.len() ==> s[k1].0 != s[k2].0
}

/// Place `e` after every entry whose offset is not larger.
pub open spec fn insert_entry(s: Seq<(u64, usize)>, e: (u64, usize)) -> Seq<(u64, usize)>
    decreases s.len(),
{
    if s.len() == 0 {
        seq![e]
    } else if s.last().0 <= e.0 {
        s.push(e)
    } else {
        insert_entry(s.drop_last(), e).push(s.last())
    }
}

/// Insertion sort of the entries, in order of appearance.
pub open spec fn sort_entries(s: Seq<(u64, usize)>) -> Seq<(u64, usize)>
    decreases s.len(),
{
    if s.len() == 0 {
        Seq::empty()
    } else {
        insert_entry(sort_entries(s.drop_last()), s.last())
    }
}

/// Inserting into a sorted sequence keeps it sorted and adds the entry.
pub proof fn lemma_insert_entry_props(s: Seq<(u64, usize)>, e: (u64, usize))
    requires
        entries_sorted(s),
    ensures
        entries_sorted(insert_entry(s, e)),
        insert_entry(s, e).to_multiset() == s.to_multiset().insert(e),
        insert_entry(s, e).len() == s.len() + 1,
    decreases s.len(),
{
    broadcast use group_to_multiset_ensures;

    let out = insert_entry(s, e);
    if s.len() == 0 {
        assert(seq![e] =~= Seq::<(u64, usize)>::empty().push(e));
        assert(out.to_multiset() == Seq::<(u64, usize)>::empty().to_multiset().insert(e));
        assert(s.to_multiset() == Seq::<(u64, usize)>::empty().to_multiset());
    } else if s.last().0 <= e.0 {
        assert forall|k1: int, k2: int| 0 <= k1 < k2 < out.len() implies out[k1].0 <= out[k2].0 by {
            if k2 < s.len() {
                assert(s[k1].0 <= s[k2].0);
            } else {
                if k1 < s.len() - 1 {
                    assert(s[k1].0 <= s[s.len() - 1].0);
                }
            }
        }
    } else {
        let pre = s.drop_last();
        assert(entries_sorted(pre)) by {
            assert(forall|k: int| 0 <= k < pre.len() ==> pre[k] == s[k]);
        }
        lemma_insert_entry_props(pre, e);
        let ins = insert_entry(pre, e);
        // every element of `ins` has an offset at most `last`'s
        assert forall|k: int| 0 <= k < ins.len() implies ins[k].0 <= s.last().0 by {
            assert(ins.to_multiset().contains(ins[k]));
            assert(ins.contains(ins[k]));
            if ins[k] == e {
            } else {
                assert(pre.to_multiset().contains(ins[k])) by {
                    assert(ins.to_multiset() == pre.to_multiset().insert(e));
                }
                assert(pre.contains(ins[k]));
                let j = choose|j: int| 0 <= j < pre.len() && pre[j] == ins[k];
                assert(s[j] == pre[j]);
                assert(s[j].0 <= s.last().0);
            }
        }
        assert forall|k1: int, k2: int| 0 <= k1 < k2 < out.len() implies out[k1].0 <= out[k2].0 by {
            if k2 < ins.len() {
                assert(ins[k1].0 <= ins[k2].0);
            } else {
                assert(out[k2] == s.last());
                assert(ins[k1].0 <= s.last().0);
            }
        }
        assert(s =~= pre.push(s.last()));
        assert(s.to_multiset() == pre.to_multiset().insert(s.last()));
        assert(out.to_multiset() == ins.to_multiset().insert(s.last()));
        assert(out.to_multiset() =~= s.to_multiset().insert(e)) by {
            assert(ins.to_multiset() == pre.to_multiset().insert(e));
        }
    }
}

/// The sorted entries: ascending by offset, the same multiset, same length.
pub proof fn lemma_sort_entries_props(s: Seq<(u64, usize)>)
    ensures
        entries_sorted(sort_entries(s)),
        sort_entries(s).to_multiset() == s.to_multiset(),
        sort_entries(s).len() == s.len(),
    decreases s.len(),
{
    broadcast use group_to_multiset_ensures;

    if s.len() > 0 {
        let pre = s.drop_last();
        lemma_sort_entries_props(pre);
        lemma_insert_entry_props(sort_entries(pre), s.last());
        assert(s =~= pre.push(s.last()));
        assert(s.to_multiset() == pre.to_multiset().insert(s.last()));
    }
}

/// Two sorted sequences of the same entries, none sharing an offset, are
/// the same sequence.
pub proof fn lemma_sorted_entries_unique(s1: Seq<(u64, usize)>, s2: Seq<(u64, usize)>)
    requires
        entries_sorted(s1),
        entries_sorted(s2),
        entries_distinct(s1),
        s1.to_multiset() == s2.to_multiset(),
    ensures
        s1 == s2,
    decreases s1.len(),
{
    broadcast use group_to_multiset_ensures;

    assert(s1.len() == s1.to_multiset().len());
    assert(s2.len() == s2.to_multiset().len());
    if s1.len() == 0 {
        assert(s1 =~= s2);
    } else {
        let e1 = s1.last();
        let e2 = s2.last();
        assert(s1.to_multiset().contains(e1));
        assert(s2.to_multiset().contains(e2));
        assert(s1.contains(e2));
        assert(s2.contains(e1));
        let j1 = choose|j: int| 0 <= j < s1.len() && s1[j] == e2;
        let j2 = choose|j: int| 0 <= j < s2.len() && s2[j] == e1;
        assert(e2.0 <= e1.0) by {
            if j1 < s1.len() - 1 {
                assert(s1[j1].0 <= s1[s1.len() - 1].0);
            }
        }
        assert(e1.0 <= e2.0) by {
            if j2 < s2.len() - 1 {
                assert(s2[j2].0 <= s2[s2.len() - 1].0);
            }
        }
        assert(e1.0 == e2.0);
        assert(e1 == e2) by {
            if j1 < s1.len() - 1 {
                assert(s1[j1].0 != s1[s1.len() - 1].0);
            }
        }
        let p1 = s1.drop_last();
        let p2 = s2.drop_last();
        assert(s1 =~= p1.push(e1));
        assert(s2 =~= p2.push(e1));
        assert(s1.to_multiset() == p1.to_multiset().insert(e1));
        assert(s2.to_multiset() == p2.to_multiset().insert(e1));
        assert(p1.to_multiset() =~= s1.to_multiset().remove(e1));
        assert(p2.to_multiset() =~= s2.to_multiset().remove(e1));
        assert(entries_sorted(p1) && entries_distinct(p1)) by {
            assert(forall|k: int| 0 <= k < p1.len() ==> p1[k] == s1[k]);
        }
        assert(entries_sorted(p2)) by {
            assert(forall|k: int| 0 <= k < p2.len() ==> p2[k] == s2[k]);
        }
        lemma_sorted_entries_unique(p1, p2);
    }
}

/// Two duplicate-free sequences with the same members hold the same
/// multiset.
pub proof fn lemma_multiset_eq_by_membership(s1: Seq<(u64, usize)>, s2: Seq<(u64, usize)>)
    requires
        s1.no_duplicates(),
        s2.no_duplicates(),
        forall|e: (u64, usize)| s1.contains(e) <==> s2.contains(e),
    ensures
        s1.to_multiset() == s2.to_multiset(),
{
    broadcast use group_to_multiset_ensures;

    s1.lemma_multiset_has_no_duplicates();
    s2.lemma_multiset_has_no_duplicates();
    assert forall|e: (u64, usize)| s1.to_multiset().count(e) == s2.to_multiset().count(e) by {
        if s1.contains(e) {
            assert(s1.to_multiset().count(e) == 1);
            assert(s2.to_multiset().count(e) == 1);
        } else {
            assert(s1.to_multiset().count(e) == 0);
            assert(s2.to_multiset().count(e) == 0);
        }
    }
    assert(s1.to_multiset() =~= s2.to_multiset());
}

/// Sorting keeps offsets distinct.
pub proof fn lemma_sort_preserves_distinct(s: Seq<(u64, usize)>)
    requires
        entries_distinct(s),
    ensures
        entries_distinct(sort_entries(s)),
{
    broadcast use group_to_multiset_ensures;

    lemma_sort_entries_props(s);
    let t = sort_entries(s);
    assert(s.no_duplicates()) by {
        assert forall|j1: int, j2: int|
            0 <= j1 < j2 < s.len() implies #[trigger] s[j1] != #[trigger] s[j2] by {
            assert(s[j1].0 != s[j2].0);
        }
    }
    s.lemma_multiset_has_no_duplicates();
    t.lemma_multiset_has_no_duplicates_conv();
    assert forall|k1: int, k2: int| 0 <= k1 < k2 < t.len() implies t[k1].0 != t[k2].0 by {
        if t[k1].0 == t[k2].0 {
            assert(t[k1] != t[k2]);
            assert(t.to_multiset().contains(t[k1]));
            assert(t.to_multiset().contains(t[k2]));
            assert(s.contains(t[k1]));
            assert(s.contains(t[k2]));
            let j1 = choose|j: int| 0 <= j < s.len() && s[j] == t[k1];
            let j2 = choose|j: int| 0 <= j < s.len() && s[j] == t[k2];
            assert(j1 != j2);
            if j1 < j2 {
                assert(s[j1].0 != s[j2].0);
            } else {
                assert(s[j2].0 != s[j1].0);
            }
        }
    }
}

/// Sort the excess entries by ascending offset.
pub fn sort_entries_by_offset(v: &Vec<(u64, usize)>) -> (out: Vec<(u64, usize)>)
    ensures
        out@ == sort_entries(v@),
{
    let n = v.len();
    let mut out: Vec<(u64, usize)> = Vec::new();
    let mut i: usize = 0;
    while i < n
        invariant
            i <= n,
            n == v@.len(),
            out@ == sort_entries(v@.take(i as int)),
            entries_sorted(out@),
        decreases n - i,
    {
        let e = *vstd::slice::slice_index_get(v.as_slice(), i);
        proof {
            assert(v@.take(i + 1).drop_last() =~= v@.take(i as int));
            assert(v@.take(i + 1).last() == e);
        }
        let ghost out0 = out@;
        let mut j = out.len();
        while j > 0 && out[j - 1].0 > e.0
            invariant
                j <= out@.len(),
                out@ == out0,
                entries_sorted(out@),
                forall|k: int| j <= k < out@.len() ==> out@[k].0 > e.0,
            decreases j,
        {
            j = j - 1;
        }
        proof {
            assert forall|k: int| 0 <= k < j implies out0[k].0 <= e.0 by {
                if k < j - 1 {
                    assert(out0[k].0 <= out0[j - 1].0);
                }
            }
            lemma_insert_entry_split(out0, e, j as int);
        }
        out.insert(j, e);
        proof {
            assert(out@ =~= out0.subrange(0, j as int) + seq![e] + out0.subrange(
                j as int,
                out0.len() as int,
            ));
            lemma_insert_entry_props(out0, e);
        }
        i = i + 1;
    }
    proof {
        assert(v@.take(n as int) =~= v@);
    }
    out
}

/// Where the spec insertion lands: after the entries with offsets not above
/// `e`'s, before the rest.
proof fn lemma_insert_entry_split(s: Seq<(u64, usize)>, e: (u64, usize), j: int)
    requires
        entries_sorted(s),
        0 <= j <= s.len(),
        forall|k: int| 0 <= k < j ==> s[k].0 <= e.0,
        forall|k: int| j <= k < s.len() ==> s[k].0 > e.0,
    ensures
        insert_entry(s, e) == s.subrange(0, j) + seq![e] + s.subrange(j, s.len() as int),
    decreases s.len(),
{
    if s.len() == 0 {
        assert(insert_entry(s, e) =~= s.subrange(0, j) + seq![e] + s.subrange(j, s.len() as int));
    } else if s.last().0 <= e.0 {
        assert(j == s.len());
        assert(insert_entry(s, e) =~= s.subrange(0, j) + seq![e] + s.subrange(j, s.len() as int));
    } else {
        let pre = s.drop_last();
        assert(entries_sorted(pre) && j <= pre.len()) by {
            assert(forall|k: int| 0 <= k < pre.len() ==> pre[k] == s[k]);
            if j == s.len() {
                assert(s[j - 1].0 <= e.0);
            }
        }
        lemma_insert_entry_split(pre, e, j);
        assert(insert_entry(s, e) =~= s.subrange(0, j) + seq![e] + s.subrange(j, s.len() as int))
            by {
            assert(pre.subrange(0, j) =~= s.subrange(0, j));
            assert(pre.subrange(j, pre.len() as int) =~= s.subrange(j, s.len() - 1));
        }
    }
}

} // verus!
