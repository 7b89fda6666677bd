//! Count map and offset index.
//!
//! Folding a file's records gives, per fingerprint, its number of
//! occurrences and one representative byte offset — the minimum offset seen,
//! i.e. the earliest occurrence, so the choice does not depend on the order
//! in which records were folded.

use crate::codec::HashOffset;
use std::collections::HashMap;
use vstd::prelude::*;

verus! {

/// How many records of `rs` carry the fingerprint `h`.
pub open spec fn hash_count(rs: Seq<HashOffset>, h: u64) -> nat
    decreases rs.len(),
{
    if rs.len() == 0 {
        0
    } else {
        hash_count(rs.drop_last(), h) + if rs.last().0 == h {
            1nat
        } else {
            0nat
        }
    }
}

/// The minimum offset among the records of `rs` with fingerprint `h`.
pub open spec fn rep_offset(rs: Seq<HashOffset>, h: u64) -> u64
    decreases rs.len(),
{
    if rs.len() == 0 {
        0
    } else if rs.last().0 == h {
        if hash_count(rs.drop_last(), h) == 0 {
            rs.last().1
        } else {
            let m = rep_offset(rs.drop_last(), h);
            if rs.last().1 < m {
                rs.last().1
            } else {
                m
            }
        }
    } else {
        rep_offset(rs.drop_last(), h)
    }
}

/// The distinct fingerprints of `rs`, in order of first occurrence.
pub open spec fn first_seen(rs: Seq<HashOffset>) -> Seq<u64>
    decreases rs.len(),
{
    if rs.len() == 0 {
        Seq::empty()
    } else {
        let pre = first_seen(rs.drop_last());
        if hash_count(rs.drop_last(), rs.last().0) > 0 {
            pre
        } else {
            pre.push(rs.last().0)
        }
    }
}

/// Membership in a sequence extended by one element.
pub proof fn lemma_push_contains<T>(s: Seq<T>, x: T)
    ensures
        forall|y: T| #[trigger] s.push(x).contains(y) <==> (s.contains(y) || y == x),
{
    assert forall|y: T| #[trigger] s.push(x).contains(y) implies (s.contains(y) || y == x) by {
        let k = choose|k: int| 0 <= k < s.push(x).len() && s.push(x)[k] == y;
        if k < s.len() {
            assert(s[k] == y);
        }
    }
    assert forall|y: T| s.contains(y) implies s.push(x).contains(y) by {
        let k = choose|k: int| 0 <= k < s.len() && s[k] == y;
        assert(s.push(x)[k] == y);
    }
    assert(s.push(x)[s.len() as int] == x);
}

/// A fingerprint occurs at most once per record.
pub proof fn lemma_hash_count_le_len(rs: Seq<HashOffset>, h: u64)
    ensures
        hash_count(rs, h) <= rs.len(),
    decreases rs.len(),
{
    if rs.len() > 0 {
        lemma_hash_count_le_len(rs.drop_last(), h);
    }
}

/// `first_seen` holds exactly the fingerprints that occur, once each.
pub proof fn lemma_first_seen_props(rs: Seq<HashOffset>)
    ensures
        forall|h: u64| first_seen(rs).contains(h) <==> hash_count(rs, h) > 0,
        first_seen(rs).no_duplicates(),
    decreases rs.len(),
{
    if rs.len() > 0 {
        let pre = rs.drop_last();
        lemma_first_seen_props(pre);
        let h0 = rs.last().0;
        assert forall|h: u64| first_seen(rs).contains(h) implies hash_count(rs, h) > 0 by {
            if hash_count(pre, h0) > 0 {
                assert(first_seen(pre).contains(h));
            } else {
                if h != h0 {
                    let k = choose|k: int|
                        0 <= k < first_seen(rs).len() && first_seen(rs)[k] == h;
                    assert(first_seen(pre)[k] == h);
                    assert(first_seen(pre).contains(h));
                }
            }
        }
        if hash_count(pre, h0) == 0 {
            assert(!first_seen(pre).contains(h0));
            assert(first_seen(rs).drop_last() =~= first_seen(pre));
            assert forall|k1: int, k2: int|
                0 <= k1 < k2 < first_seen(rs).len() implies first_seen(rs)[k1] != first_seen(
                rs,
            )[k2] by {
                if k2 < first_seen(rs).len() - 1 {
                    assert(first_seen(pre)[k1] != first_seen(pre)[k2]);
                } else {
                    assert(first_seen(rs)[k2] == h0);
                    if first_seen(rs)[k1] == h0 {
                        assert(first_seen(pre)[k1] == h0);
                        assert(first_seen(pre).contains(h0));
                    }
                }
            }
        }
        assert forall|h: u64| hash_count(rs, h) > 0 implies first_seen(rs).contains(h) by {
            if h == h0 {
                if hash_count(pre, h0) > 0 {
                    assert(first_seen(pre).contains(h));
                    let k = choose|k: int|
                        0 <= k < first_seen(pre).len() && first_seen(pre)[k] == h;
                    assert(first_seen(rs)[k] == h);
                } else {
                    assert(first_seen(rs).last() == h);
                }
            } else {
                assert(hash_count(pre, h) > 0);
                assert(first_seen(pre).contains(h));
                let k = choose|k: int| 0 <= k < first_seen(pre).len() && first_seen(pre)[k] == h;
                assert(first_seen(rs)[k] == h);
            }
        }
    }
}

/// Per-file fold result: occurrence counts and the offset index.
pub struct CountMap {
    /// The distinct fingerprints, in order of first occurrence.
    pub keys: Vec<u64>,
    /// Fingerprint to occurrence count.
    pub counts: HashMap<u64, usize>,
    /// Fingerprint to representative (minimum) offset.
    pub offsets: HashMap<u64, u64>,
}

impl CountMap {
    /// The three parts agree on which fingerprints are present.
    pub open spec fn wf(self) -> bool {
        &&& self.keys@.no_duplicates()
        &&& forall|h: u64| self.counts@.dom().contains(h) <==> self.keys@.contains(h)
        &&& forall|h: u64| self.offsets@.dom().contains(h) <==> self.keys@.contains(h)
    }

    /// The map is the fold of `rs`: counts are occurrence counts, offsets
    /// are the earliest occurrences, keys come in first-occurrence order.
    pub open spec fn models(self, rs: Seq<HashOffset>) -> bool {
        &&& self.keys@ == first_seen(rs)
        &&& forall|h: u64| #[trigger]
            self.keys@.contains(h) ==> self.counts@[h] as nat == hash_count(rs, h)
        &&& forall|h: u64| #[trigger] self.keys@.contains(h) ==> self.offsets@[h] == rep_offset(rs, h)
    }

    /// The occurrence count of `h` in the folded records, 0 when absent.
    pub open spec fn spec_count(self, h: u64) -> nat {
        if self.counts@.dom().contains(h) {
            self.counts@[h] as nat
        } else {
            0
        }
    }
}

/// Fold a file's records into its count map and offset index.
pub fn generate_hash_counts_and_index(records: &Vec<HashOffset>) -> (m: CountMap)
    ensures
        m.wf(),
        m.models(records@),
{
    let mut keys: Vec<u64> = Vec::new();
    let mut counts: HashMap<u64, usize> = HashMap::new();
    let mut offsets: HashMap<u64, u64> = HashMap::new();
    let n = records.len();
    let mut i: usize = 0;
    while i < n
        invariant
            i <= n,
            n == records@.len(),
            keys@.no_duplicates(),
            forall|h: u64| counts@.dom().contains(h) <==> keys@.contains(h),
            forall|h: u64| offsets@.dom().contains(h) <==> keys@.contains(h),
            keys@ == first_seen(records@.take(i as int)),
            forall|h: u64| #[trigger]
                keys@.contains(h) ==> counts@[h] as nat == hash_count(records@.take(i as int), h),
            forall|h: u64| #[trigger]
                keys@.contains(h) ==> offsets@[h] == rep_offset(records@.take(i as int), h),
        decreases n - i,
    {
        let r = *vstd::slice::slice_index_get(records.as_slice(), i);
        let ghost pre = records@.take(i as int);
        let ghost cur = records@.take(i + 1);
        proof {
            assert(cur.drop_last() =~= pre);
            assert(cur.last() == r);
            lemma_first_seen_props(pre);
            lemma_hash_count_le_len(pre, r.0);
        }
        let ghost keys0 = keys@;
        let ghost counts0 = counts@;
        let ghost offsets0 = offsets@;
        match counts.get(&r.0) {
            Some(c) => {
                let c = *c;
                proof {
                    assert(counts@.dom().contains(r.0));
                    assert(keys@.contains(r.0));
                    assert(c as nat == hash_count(pre, r.0));
                    assert(pre.len() == i);
                    assert(c <= i);
                    assert(offsets@.dom().contains(r.0));
                }
                counts.insert(r.0, c + 1);
                match offsets.get(&r.0) {
                    Some(o) => {
                        let o = *o;
                        if r.1 < o {
                            offsets.insert(r.0, r.1);
                        }
                    },
                    None => {
                        proof {
                            assert(false);
                        }
                    },
                }
                proof {
                    assert(first_seen(cur) == keys0);
                    assert(hash_count(cur, r.0) == c + 1);
                    assert forall|h: u64| counts@.dom().contains(h) <==> keys@.contains(h) by {
                        assert(counts@.dom().contains(h) <==> (h == r.0 || counts0.dom().contains(
                            h,
                        )));
                    }
                    assert forall|h: u64| #[trigger] keys@.contains(h) implies counts@[h] as nat
                        == hash_count(cur, h) && offsets@[h] == rep_offset(cur, h) by {
                        if h == r.0 {
                            assert(hash_count(pre, r.0) > 0);
                        } else {
                            assert(counts@[h] == counts0[h]);
                            assert(offsets@[h] == offsets0[h]);
                            assert(hash_count(cur, h) == hash_count(pre, h));
                            assert(rep_offset(cur, h) == rep_offset(pre, h));
                        }
                    }
                }
            },
            None => {
                proof {
                    assert(!keys@.contains(r.0));
                    assert(hash_count(pre, r.0) == 0);
                }
                keys.push(r.0);
                counts.insert(r.0, 1);
                offsets.insert(r.0, r.1);
                proof {
                    assert(keys@ =~= keys0.push(r.0));
                    lemma_push_contains(keys0, r.0);
                    assert(first_seen(cur) =~= keys0.push(r.0));
                    assert forall|k1: int, k2: int|
                        0 <= k1 < k2 < keys@.len() implies keys@[k1] != keys@[k2] by {
                        if k2 < keys@.len() - 1 {
                            assert(keys0[k1] != keys0[k2]);
                        } else {
                            if keys@[k1] == r.0 {
                                assert(keys0[k1] == r.0);
                                assert(keys0.contains(r.0));
                            }
                        }
                    }
                    assert forall|h: u64| counts@.dom().contains(h) <==> keys@.contains(h) by {
                        assert(counts@.dom().contains(h) <==> (h == r.0 || counts0.dom().contains(
                            h,
                        )));
                        assert(keys@.contains(h) <==> (keys0.contains(h) || h == r.0));
                    }
                    assert forall|h: u64| offsets@.dom().contains(h) <==> keys@.contains(h) by {
                        assert(offsets@.dom().contains(h) <==> (h == r.0 || offsets0.dom().contains(
                            h,
                        )));
                        assert(keys@.contains(h) <==> (keys0.contains(h) || h == r.0));
                    }
                    assert forall|h: u64| #[trigger] keys@.contains(h) implies counts@[h] as nat
                        == hash_count(cur, h) && offsets@[h] == rep_offset(cur, h) by {
                        if h == r.0 {
                            assert(hash_count(cur, r.0) == 1);
                            assert(rep_offset(cur, r.0) == r.1);
                        } else {
                            assert(keys0.contains(h));
                            assert(counts@[h] == counts0[h]);
                            assert(offsets@[h] == offsets0[h]);
                            assert(hash_count(cur, h) == hash_count(pre, h));
                            assert(rep_offset(cur, h) == rep_offset(pre, h));
                        }
                    }
                }
            },
        }
        i = i + 1;
    }
    proof {
        assert(records@.take(n as int) =~= records@);
    }
    CountMap { keys, counts, offsets }
}

} // verus!
