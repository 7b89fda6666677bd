//! Pairwise reduction of two count maps into excess multisets.
//!
//! For a fingerprint counted `ca` times on the owning side and `cb` times on
//! the other, the owning side reports an excess of `ca - cb` when `ca > cb`.
//! With `ignore_occurences` set, a fingerprint present on both sides is
//! fully cancelled no matter the counts.  Each excess entry carries the
//! owning side's representative offset, from which the line text and line
//! number are later recovered.

use crate::counts::CountMap;
use vstd::prelude::*;

verus! {

/// Does the owning side report fingerprint counts `(ca, cb)` at all?
pub open spec fn is_excess(ca: nat, cb: nat, ignore_occurences: bool) -> bool {
    ca > cb && (!ignore_occurences || cb == 0)
}

/// The entry the owning side reports for fingerprint `h`.
pub open spec fn entry_for(a: CountMap, b: CountMap, h: u64) -> (u64, usize) {
    (a.offsets@[h], (a.spec_count(h) - b.spec_count(h)) as usize)
}

/// The fingerprints of `keys`, in order, that the owning side reports.
pub open spec fn excess_keys(keys: Seq<u64>, a: CountMap, b: CountMap, ignore_occurences: bool) -> Seq<u64>
    decreases keys.len(),
{
    if keys.len() == 0 {
        Seq::empty()
    } else {
        let pre = excess_keys(keys.drop_last(), a, b, ignore_occurences);
        if is_excess(a.spec_count(keys.last()), b.spec_count(keys.last()), ignore_occurences) {
            pre.push(keys.last())
        } else {
            pre
        }
    }
}

/// The `(offset, excess)` entries the owning side reports, in key order.
pub open spec fn excess_entries(keys: Seq<u64>, a: CountMap, b: CountMap, ignore_occurences: bool) -> Seq<
    (u64, usize),
> {
    excess_keys(keys, a, b, ignore_occurences).map_values(|h: u64| entry_for(a, b, h))
}

/// A fingerprint is reported if and only if it is a key with excess, and
/// distinct keys are reported at most once.
pub proof fn lemma_excess_keys_props(keys: Seq<u64>, a: CountMap, b: CountMap, ignore_occurences: bool)
    ensures
        forall|h: u64|
            #[trigger] excess_keys(keys, a, b, ignore_occurences).contains(h) <==> (keys.contains(h)
                && is_excess(a.spec_count(h), b.spec_count(h), ignore_occurences)),
        keys.no_duplicates() ==> excess_keys(keys, a, b, ignore_occurences).no_duplicates(),
    decreases keys.len(),
{
    let ek = excess_keys(keys, a, b, ignore_occurences);
    if keys.len() > 0 {
        let pre = keys.drop_last();
        let ek_pre = excess_keys(pre, a, b, ignore_occurences);
        lemma_excess_keys_props(pre, a, b, ignore_occurences);
        assert forall|h: u64| #[trigger] ek.contains(h) implies (keys.contains(h) && is_excess(
            a.spec_count(h),
            b.spec_count(h),
            ignore_occurences,
        )) by {
            let k = choose|k: int| 0 <= k < ek.len() && ek[k] == h;
            if k < ek_pre.len() {
                assert(ek_pre.contains(h));
                let j = choose|j: int| 0 <= j < pre.len() && pre[j] == h;
                assert(keys[j] == h);
            } else {
                assert(h == keys.last());
                assert(keys[keys.len() - 1] == h);
            }
        }
        assert forall|h: u64|
            keys.contains(h) && is_excess(
                a.spec_count(h),
                b.spec_count(h),
                ignore_occurences,
            ) implies #[trigger] ek.contains(h) by {
            let k = choose|k: int| 0 <= k < keys.len() && keys[k] == h;
            if k < keys.len() - 1 {
                assert(pre[k] == h);
                assert(ek_pre.contains(h));
                let j = choose|j: int| 0 <= j < ek_pre.len() && ek_pre[j] == h;
                assert(ek[j] == h);
            } else {
                assert(ek.last() == h);
            }
        }
        if keys.no_duplicates() {
            assert(pre.no_duplicates()) by {
                assert(forall|j: int| 0 <= j < pre.len() ==> pre[j] == keys[j]);
            }
            if is_excess(
                a.spec_count(keys.last()),
                b.spec_count(keys.last()),
                ignore_occurences,
            ) {
                assert(!pre.contains(keys.last())) by {
                    if pre.contains(keys.last()) {
                        let j = choose|j: int| 0 <= j < pre.len() && pre[j] == keys.last();
                        assert(keys[j] == keys[keys.len() - 1]);
                    }
                }
                assert(!ek_pre.contains(keys.last()));
                assert forall|k1: int, k2: int| 0 <= k1 < k2 < ek.len() implies ek[k1] != ek[k2] by {
                    if k2 < ek.len() - 1 {
                        assert(ek_pre[k1] != ek_pre[k2]);
                    } else {
                        if ek[k1] == keys.last() {
                            assert(ek_pre[k1] == keys.last());
                            assert(ek_pre.contains(keys.last()));
                        }
                    }
                }
            }
        }
    }
}

/// Reduce the owning side `a` against the other side `b`: one entry per
/// fingerprint of `a` with excess, in first-occurrence order.
pub fn reduce_excess(a: &CountMap, b: &CountMap, ignore_occurences: bool) -> (out: Vec<(u64, usize)>)
    requires
        a.wf(),
        b.wf(),
    ensures
        out@ == excess_entries(a.keys@, *a, *b, ignore_occurences),
{
    let mut out: Vec<(u64, usize)> = Vec::new();
    let n = a.keys.len();
    let mut i: usize = 0;
    while i < n
        invariant
            i <= n,
            n == a.keys@.len(),
            a.wf(),
            b.wf(),
            out@ == excess_entries(a.keys@.take(i as int), *a, *b, ignore_occurences),
        decreases n - i,
    {
        let h = *vstd::slice::slice_index_get(a.keys.as_slice(), i);
        proof {
            assert(a.keys@.take(i + 1).drop_last() =~= a.keys@.take(i as int));
            assert(a.keys@.take(i + 1).last() == h);
            assert(a.keys@.contains(h)) by {
                assert(a.keys@[i as int] == h);
            }
        }
        let ca: usize = match a.counts.get(&h) {
            Some(c) => *c,
            None => {
                proof {
                    assert(false);
                }
                0
            },
        };
        let cb: usize = match b.counts.get(&h) {
            Some(c) => {
                proof {
                    assert(b.counts@.dom().contains(h));
                }
                *c
            },
            None => 0,
        };
        if ignore_occurences && cb > 0 {
            // fully cancelled: present on both sides
        } else if ca > cb {
            let off: u64 = match a.offsets.get(&h) {
                Some(o) => *o,
                None => {
                    proof {
                        assert(false);
                    }
                    0
                },
            };
            out.push((off, ca - cb));
            proof {
                assert((off, (ca - cb) as usize) == entry_for(*a, *b, h));
            }
        }
        proof {
            let ek1 = excess_keys(a.keys@.take(i + 1), *a, *b, ignore_occurences);
            let ek0 = excess_keys(a.keys@.take(i as int), *a, *b, ignore_occurences);
            if is_excess(a.spec_count(h), b.spec_count(h), ignore_occurences) {
                assert(ek1 == ek0.push(h));
                assert(out@ =~= ek1.map_values(|x: u64| entry_for(*a, *b, x)));
            } else {
                assert(ek1 == ek0);
            }
        }
        i = i + 1;
    }
    proof {
        assert(a.keys@.take(n as int) =~= a.keys@);
    }
    out
}

} // verus!
