//! Line-number resolution.
//!
//! The 1-based line number of a byte offset is the count of `\n` bytes at
//! positions strictly below the offset, plus one.  Two strategies compute
//! it: counting newlines over a byte range with a sequential scan (used with
//! a cursor during retrieval), and a binary search over the newline index.

use crate::scan::{lemma_newlines_props, lemma_newlines_skip_range, lemma_newlines_take_step,
    lemma_take_all, memchr_first, newlines_of, NEWLINE};
use vstd::prelude::*;
use vstd::slice::slice_subrange;

verus! {

/// The 1-based line number of the line starting at byte `off`.
pub open spec fn line_number_at(bytes: Seq<u8>, off: int) -> int {
    newlines_of(bytes.take(off)).len() + 1int
}

/// Strictly ascending positions.
pub open spec fn strictly_sorted(ps: Seq<u64>) -> bool {
    forall|k1: int, k2: int| 0 <= k1 < k2 < ps.len() ==> ps[k1] < ps[k2]
}

/// How many of the positions lie strictly below `off`.
pub open spec fn count_below(ps: Seq<u64>, off: u64) -> int
    decreases ps.len(),
{
    if ps.len() == 0 {
        0
    } else {
        count_below(ps.drop_last(), off) + if ps.last() < off {
            1int
        } else {
            0int
        }
    }
}

/// Counting newlines over a longer prefix never loses any.
pub proof fn lemma_newline_count_monotone(bytes: Seq<u8>, a: int, b: int)
    requires
        0 <= a <= b <= bytes.len(),
    ensures
        newlines_of(bytes.take(a)).len() <= newlines_of(bytes.take(b)).len(),
    decreases b - a,
{
    if a < b {
        lemma_newline_count_monotone(bytes, a, b - 1);
        lemma_newlines_take_step(bytes, b - 1);
    }
}

/// A line that starts later in the file has a strictly larger line number:
/// the later line's start is preceded by a `\n` the earlier offset has not
/// yet counted.
pub proof fn lemma_line_number_strict(bytes: Seq<u8>, o1: int, o2: int)
    requires
        0 <= o1 < o2 <= bytes.len(),
        bytes[o2 - 1] == NEWLINE,
    ensures
        line_number_at(bytes, o1) < line_number_at(bytes, o2),
{
    lemma_newline_count_monotone(bytes, o1, o2 - 1);
    lemma_newlines_take_step(bytes, o2 - 1);
}

/// In the prefix of length `off`, the newline index is cut at exactly the
/// positions below `off`.
pub proof fn lemma_newlines_prefix(bytes: Seq<u8>, off: int)
    requires
        0 <= off <= bytes.len(),
    ensures
        newlines_of(bytes.take(off)).len() <= newlines_of(bytes).len(),
        forall|k: int|
            0 <= k < newlines_of(bytes).len() ==> (#[trigger] newlines_of(bytes)[k] < off <==> k
                < newlines_of(bytes.take(off)).len()),
    decreases bytes.len(),
{
    lemma_newlines_props(bytes);
    if off == bytes.len() {
        lemma_take_all(bytes);
    } else {
        let pre = bytes.drop_last();
        assert(bytes.take(off) =~= pre.take(off));
        lemma_newlines_prefix(pre, off);
        if bytes.last() == NEWLINE {
            assert forall|k: int|
                0 <= k < newlines_of(bytes).len() implies (#[trigger] newlines_of(bytes)[k] < off
                <==> k < newlines_of(bytes.take(off)).len()) by {
                if k < newlines_of(pre).len() {
                    assert(newlines_of(bytes)[k] == newlines_of(pre)[k]);
                } else {
                    assert(newlines_of(bytes)[k] == bytes.len() - 1);
                }
            }
        }
    }
}

/// For sorted positions, the elements below `off` form a prefix of length
/// `count_below`.
pub proof fn lemma_count_below_char(ps: Seq<u64>, off: u64)
    requires
        strictly_sorted(ps),
    ensures
        0 <= count_below(ps, off) <= ps.len(),
        forall|k: int| 0 <= k < ps.len() ==> (#[trigger] ps[k] < off <==> k < count_below(ps, off)),
    decreases ps.len(),
{
    if ps.len() > 0 {
        let pre = ps.drop_last();
        assert(forall|k: int| 0 <= k < pre.len() ==> pre[k] == ps[k]);
        assert(strictly_sorted(pre));
        lemma_count_below_char(pre, off);
        if ps.last() < off {
            assert forall|k: int| 0 <= k < ps.len() - 1 implies pre[k] < off by {
                assert(ps[k] < ps[ps.len() - 1]);
            }
            assert(count_below(pre, off) == pre.len());
        }
        assert forall|k: int| 0 <= k < ps.len() implies (#[trigger] ps[k] < off <==> k
            < count_below(ps, off)) by {
            if k < ps.len() - 1 {
                assert(pre[k] < off <==> k < count_below(pre, off));
            }
        }
    }
}

/// The binary-search resolver agrees with the newline count: when `ps` is
/// the file's newline index, `count_below(ps, off)` is the number of `\n`
/// bytes before `off`.
pub proof fn lemma_count_below_newlines(bytes: Seq<u8>, ps: Seq<u64>, off: int)
    requires
        ps.map_values(|p: u64| p as int) == newlines_of(bytes),
        0 <= off <= bytes.len(),
        off <= u64::MAX,
    ensures
        count_below(ps, off as u64) == newlines_of(bytes.take(off)).len(),
{
    lemma_newlines_props(bytes);
    assert(forall|k: int|
        0 <= k < ps.len() ==> ps[k] as int == #[trigger] newlines_of(bytes)[k]);
    assert forall|k1: int, k2: int| 0 <= k1 < k2 < ps.len() implies ps[k1] < ps[k2] by {
        assert(newlines_of(bytes)[k1] < newlines_of(bytes)[k2]);
    }
    assert(strictly_sorted(ps));
    lemma_count_below_char(ps, off as u64);
    lemma_newlines_prefix(bytes, off);
    let cb = count_below(ps, off as u64);
    let nlb = newlines_of(bytes.take(off)).len();
    assert(forall|k: int|
        0 <= k < ps.len() ==> ps[k] as int == #[trigger] newlines_of(bytes)[k]);
    if cb < nlb {
        assert(newlines_of(bytes)[cb] < off);
        assert(ps[cb] < off as u64);
    }
    if nlb < cb {
        assert(ps[nlb as int] < off as u64);
        assert(newlines_of(bytes)[nlb as int] < off);
    }
}

/// Count the `\n` bytes in `bytes[lo..hi)` with a vectorized byte search.
pub fn count_newlines_range(bytes: &[u8], lo: usize, hi: usize) -> (cnt: usize)
    requires
        lo <= hi <= bytes@.len(),
    ensures
        newlines_of(bytes@.take(hi as int)).len() == newlines_of(bytes@.take(lo as int)).len()
            + cnt,
{
    let mut cnt: usize = 0;
    let mut pos: usize = lo;
    proof {
        lemma_newline_count_monotone(bytes@, lo as int, hi as int);
    }
    loop
        invariant
            lo <= pos <= hi <= bytes@.len(),
            newlines_of(bytes@.take(pos as int)).len() == newlines_of(bytes@.take(lo as int)).len()
                + cnt,
            cnt <= pos - lo,
        ensures
            newlines_of(bytes@.take(hi as int)).len() == newlines_of(bytes@.take(lo as int)).len()
                + cnt,
        decreases hi - pos,
    {
        let sub = slice_subrange(bytes, pos, hi);
        match memchr_first(NEWLINE, sub) {
            Some(p) => {
                proof {
                    assert(forall|i: int|
                        pos <= i < pos + p ==> bytes@[i] == sub@[i - pos] && sub@[i - pos]
                            != NEWLINE);
                    lemma_newlines_skip_range(bytes@, pos as int, pos + p);
                    lemma_newlines_take_step(bytes@, pos + p);
                    assert(bytes@[pos + p] == sub@[p as int]);
                }
                cnt = cnt + 1;
                pos = pos + p + 1;
            },
            None => {
                proof {
                    assert(forall|i: int|
                        pos <= i < hi ==> bytes@[i] == sub@[i - pos] && sub@[i - pos] != NEWLINE);
                    lemma_newlines_skip_range(bytes@, pos as int, hi as int);
                }
                break ;
            },
        }
    }
    cnt
}

/// Resolve a line number by binary search on the newline index: the number
/// of positions strictly below `off`, plus one.
pub fn line_number_from_index(ps: &Vec<u64>, off: u64) -> (ln: usize)
    requires
        strictly_sorted(ps@),
        ps@.len() < usize::MAX,
    ensures
        ln == count_below(ps@, off) + 1,
{
    proof {
        lemma_count_below_char(ps@, off);
    }
    let n = ps.len();
    let mut lo: usize = 0;
    let mut hi: usize = n;
    while lo < hi
        invariant
            0 <= lo <= hi <= n,
            n == ps@.len(),
            strictly_sorted(ps@),
            forall|k: int| 0 <= k < lo ==> ps@[k] < off,
            forall|k: int| hi <= k < n ==> !(ps@[k] < off),
        decreases hi - lo,
    {
        let mid = lo + (hi - lo) / 2;
        if *vstd::slice::slice_index_get(ps.as_slice(), mid) < off {
            proof {
                assert forall|k: int| 0 <= k < mid + 1 implies ps@[k] < off by {
                    if k < mid {
                        assert(ps@[k] < ps@[mid as int]);
                    }
                }
            }
            lo = mid + 1;
        } else {
            proof {
                assert forall|k: int| mid <= k < n implies !(ps@[k] < off) by {
                    if k > mid {
                        assert(ps@[mid as int] < ps@[k]);
                    }
                }
            }
            hi = mid;
        }
    }
    proof {
        let cb = count_below(ps@, off);
        if cb < lo {
            assert(ps@[cb] < off);
        }
        if lo < cb {
            assert(ps@[lo as int] < off);
        }
    }
    lo + 1
}

} // verus!
