//! Line scanning.
//!
//! A file is a byte sequence.  A line spans `[prev_nl + 1, cur_nl)` with
//! `prev_nl = -1` for the first line; a non-empty tail after the last `\n`
//! is a final line.  A trailing `\r` immediately before the `\n` is stripped
//! from the fingerprinted slice but does not move the line's offset.  Empty
//! lines (after the strip) produce no record but still count for line
//! numbering.

use crate::codec::HashOffset;
use crate::hash::{hash_line, line_hash};
use vstd::prelude::*;
use vstd::slice::slice_subrange;

verus! {

pub const NEWLINE: u8 = 10;

pub const CARRIAGE_RETURN: u8 = 13;

/// The positions of every `\n` in `bytes`, in ascending order.
pub open spec fn newlines_of(bytes: Seq<u8>) -> Seq<int>
    decreases bytes.len(),
{
    if bytes.len() == 0 {
        Seq::empty()
    } else {
        let pre = newlines_of(bytes.drop_last());
        if bytes.last() == NEWLINE {
            pre.push(bytes.len() - 1)
        } else {
            pre
        }
    }
}

/// The newline index is sound (every listed position holds a `\n`),
/// complete (every `\n` is listed) and strictly increasing.
pub proof fn lemma_newlines_props(bytes: Seq<u8>)
    ensures
        forall|k: int|
            0 <= k < newlines_of(bytes).len() ==> 0 <= #[trigger] newlines_of(bytes)[k]
                < bytes.len() && bytes[newlines_of(bytes)[k]] == NEWLINE,
        forall|k1: int, k2: int|
            0 <= k1 < k2 < newlines_of(bytes).len() ==> #[trigger] newlines_of(bytes)[k1]
                < #[trigger] newlines_of(bytes)[k2],
        forall|i: int|
            0 <= i < bytes.len() && bytes[i] == NEWLINE ==> newlines_of(bytes).contains(i),
    decreases bytes.len(),
{
    if bytes.len() > 0 {
        let pre = bytes.drop_last();
        lemma_newlines_props(pre);
        assert forall|i: int|
            0 <= i < bytes.len() && bytes[i] == NEWLINE implies newlines_of(bytes).contains(
            i,
        ) by {
            if i < bytes.len() - 1 {
                assert(pre[i] == bytes[i]);
                assert(newlines_of(pre).contains(i));
                let k = choose|k: int| 0 <= k < newlines_of(pre).len() && newlines_of(pre)[k] == i;
                assert(newlines_of(bytes)[k] == i);
            } else {
                assert(bytes.last() == NEWLINE);
                assert(newlines_of(bytes).last() == i);
            }
        }
    }
}

/// A file has no more newlines than bytes.
pub proof fn lemma_newlines_count_le_len(bytes: Seq<u8>)
    ensures
        newlines_of(bytes).len() <= bytes.len(),
    decreases bytes.len(),
{
    if bytes.len() > 0 {
        lemma_newlines_count_le_len(bytes.drop_last());
    }
}

/// Unfolding step: the newlines of a one-byte-longer prefix.
pub proof fn lemma_newlines_take_step(bytes: Seq<u8>, i: int)
    requires
        0 <= i < bytes.len(),
    ensures
        newlines_of(bytes.take(i + 1)) == if bytes[i] == NEWLINE {
            newlines_of(bytes.take(i)).push(i)
        } else {
            newlines_of(bytes.take(i))
        },
{
    assert(bytes.take(i + 1).drop_last() =~= bytes.take(i));
    assert(bytes.take(i + 1).last() == bytes[i]);
}

/// A byte range free of `\n` adds no newline positions.
pub proof fn lemma_newlines_skip_range(bytes: Seq<u8>, a: int, b: int)
    requires
        0 <= a <= b <= bytes.len(),
        forall|i: int| a <= i < b ==> bytes[i] != NEWLINE,
    ensures
        newlines_of(bytes.take(b)) == newlines_of(bytes.take(a)),
    decreases b - a,
{
    if a < b {
        lemma_newlines_skip_range(bytes, a, b - 1);
        lemma_newlines_take_step(bytes, b - 1);
    }
}

/// The whole sequence is its own `take`.
pub proof fn lemma_take_all(bytes: Seq<u8>)
    ensures
        bytes.take(bytes.len() as int) == bytes,
{
    assert(bytes.take(bytes.len() as int) =~= bytes);
}

/// Relies on `memchr::memchr`: returns the index of the first occurrence of
/// `needle` in `haystack`, or `None` if it does not occur.
#[verifier::external_body]
pub(crate) fn memchr_first(needle: u8, haystack: &[u8]) -> (r: Option<usize>)
    ensures
        match r {
            Some(i) => i < haystack@.len() && haystack@[i as int] == needle && forall|j: int|
                0 <= j < i ==> haystack@[j] != needle,
            None => forall|j: int| 0 <= j < haystack@.len() ==> haystack@[j] != needle,
        },
{
    memchr::memchr(needle, haystack)
}

/// Discover the ordered byte positions of every `\n` in `bytes` with a
/// vectorized byte search.
pub fn find_newlines(bytes: &[u8]) -> (nls: Vec<usize>)
    ensures
        nls@.map_values(|p: usize| p as int) == newlines_of(bytes@),
{
    let len = bytes.len();
    let mut nls: Vec<usize> = Vec::new();
    let mut pos: usize = 0;
    loop
        invariant
            pos <= len,
            len == bytes@.len(),
            nls@.map_values(|p: usize| p as int) == newlines_of(bytes@.take(pos as int)),
        ensures
            nls@.map_values(|p: usize| p as int) == newlines_of(bytes@),
        decreases len - pos,
    {
        let sub = slice_subrange(bytes, pos, len);
        match memchr_first(NEWLINE, sub) {
            Some(p) => {
                proof {
                    assert(forall|i: int|
                        pos <= i < pos + p ==> bytes@[i] == sub@[i - pos] && sub@[i - pos]
                            != NEWLINE);
                    lemma_newlines_skip_range(bytes@, pos as int, pos + p);
                    lemma_newlines_take_step(bytes@, pos + p);
                    assert(bytes@[pos + p] == sub@[p as int]);
                }
                let found = pos + p;
                nls.push(found);
                proof {
                    assert(nls@.map_values(|q: usize| q as int) =~= newlines_of(
                        bytes@.take(found + 1),
                    ));
                }
                pos = found + 1;
            },
            None => {
                proof {
                    assert(forall|i: int|
                        pos <= i < len ==> bytes@[i] == sub@[i - pos] && sub@[i - pos] != NEWLINE);
                    lemma_newlines_skip_range(bytes@, pos as int, len as int);
                    lemma_take_all(bytes@);
                }
                break ;
            },
        }
    }
    nls
}

/// The start of the file tail: the byte just after the last `\n`
/// (the whole file when it holds no `\n`).
pub open spec fn tail_start(bytes: Seq<u8>) -> int {
    let nl = newlines_of(bytes);
    if nl.len() == 0 {
        0
    } else {
        nl.last() + 1
    }
}

/// How many physical lines the file has: one per `\n`, plus a final line
/// for a non-empty tail.
pub open spec fn line_count(bytes: Seq<u8>) -> int {
    newlines_of(bytes).len() + if tail_start(bytes) < bytes.len() {
        1int
    } else {
        0int
    }
}

/// The byte offset of the first byte of line `i` (0-based line index).
pub open spec fn line_start(bytes: Seq<u8>, i: int) -> int {
    if i == 0 {
        0
    } else {
        newlines_of(bytes)[i - 1] + 1
    }
}

/// One past the last byte of line `i`, excluding the terminating `\n`.
pub open spec fn line_end(bytes: Seq<u8>, i: int) -> int {
    let nl = newlines_of(bytes);
    if i < nl.len() {
        nl[i]
    } else {
        bytes.len() as int
    }
}

/// The bytes of line `i`, without its terminating `\n`.
pub open spec fn raw_line(bytes: Seq<u8>, i: int) -> Seq<u8> {
    bytes.subrange(line_start(bytes, i), line_end(bytes, i))
}

/// A trailing `\r` is stripped before fingerprinting.
pub open spec fn strip_cr(line: Seq<u8>) -> Seq<u8> {
    if line.len() > 0 && line.last() == CARRIAGE_RETURN {
        line.drop_last()
    } else {
        line
    }
}

/// The fingerprinted bytes of line `i`.
pub open spec fn clean_line(bytes: Seq<u8>, i: int) -> Seq<u8> {
    strip_cr(raw_line(bytes, i))
}

/// The record produced for (non-empty) line `i`.
pub open spec fn record_at(bytes: Seq<u8>, i: int) -> HashOffset {
    HashOffset(line_hash(clean_line(bytes, i)), line_start(bytes, i) as u64)
}

/// The records of the first `n` physical lines, in line order; empty lines
/// (after the `\r` strip) contribute none.
pub open spec fn records_upto(bytes: Seq<u8>, n: int) -> Seq<HashOffset>
    decreases n,
{
    if n <= 0 {
        Seq::empty()
    } else {
        let pre = records_upto(bytes, n - 1);
        if clean_line(bytes, n - 1).len() > 0 {
            pre.push(record_at(bytes, n - 1))
        } else {
            pre
        }
    }
}

/// Every record of the file: one per non-empty line, in line order.
pub open spec fn records_of(bytes: Seq<u8>) -> Seq<HashOffset> {
    records_upto(bytes, line_count(bytes))
}

/// Line boundaries are well formed: within the file, start before end, and
/// a line starts at 0 or just after a `\n`.
pub proof fn lemma_line_bounds(bytes: Seq<u8>, i: int)
    requires
        0 <= i < line_count(bytes),
    ensures
        0 <= line_start(bytes, i) <= line_end(bytes, i) <= bytes.len(),
        line_start(bytes, i) == 0 || bytes[line_start(bytes, i) - 1] == NEWLINE,
{
    lemma_newlines_props(bytes);
}

/// Later lines start strictly later.
pub proof fn lemma_line_start_increasing(bytes: Seq<u8>, i: int)
    requires
        0 <= i,
        i + 1 < line_count(bytes),
    ensures
        line_start(bytes, i) < line_start(bytes, i + 1),
{
    lemma_newlines_props(bytes);
    lemma_line_bounds(bytes, i);
}

/// Record offsets are strictly increasing and all point inside the file:
/// each is the start of a distinct non-empty line.
pub proof fn lemma_records_upto_offsets(bytes: Seq<u8>, n: int)
    requires
        0 <= n <= line_count(bytes),
        bytes.len() <= u64::MAX,
    ensures
        forall|j1: int, j2: int|
            0 <= j1 < j2 < records_upto(bytes, n).len() ==> (#[trigger] records_upto(bytes, n)[j1]).1
                < (#[trigger] records_upto(bytes, n)[j2]).1,
        forall|j: int|
            0 <= j < records_upto(bytes, n).len() ==> (#[trigger] records_upto(bytes, n)[j]).1
                < bytes.len(),
        n < line_count(bytes) ==> forall|j: int|
            0 <= j < records_upto(bytes, n).len() ==> (#[trigger] records_upto(bytes, n)[j]).1
                < line_start(bytes, n),
    decreases n,
{
    if n > 0 {
        lemma_records_upto_offsets(bytes, n - 1);
        let pre = records_upto(bytes, n - 1);
        let cur = records_upto(bytes, n);
        lemma_line_bounds(bytes, n - 1);
        if clean_line(bytes, n - 1).len() > 0 {
            assert(raw_line(bytes, n - 1).len() > 0);
            assert(line_start(bytes, n - 1) < line_end(bytes, n - 1));
            assert(record_at(bytes, n - 1).1 == line_start(bytes, n - 1));
            assert forall|j: int| 0 <= j < cur.len() implies (#[trigger] cur[j]).1
                < bytes.len() by {
                if j < pre.len() {
                } else {
                    assert(cur[j] == record_at(bytes, n - 1));
                }
            }
            assert forall|j1: int, j2: int|
                0 <= j1 < j2 < cur.len() implies (#[trigger] cur[j1]).1 < (#[trigger] cur[j2]).1 by {
                if j2 < pre.len() {
                    assert(pre[j1].1 < pre[j2].1);
                } else {
                    assert(cur[j2] == record_at(bytes, n - 1));
                    assert(n - 1 < line_count(bytes));
                    assert(pre[j1].1 < line_start(bytes, n - 1));
                }
            }
        }
        if n < line_count(bytes) {
            lemma_line_start_increasing(bytes, n - 1);
            assert forall|j: int| 0 <= j < cur.len() implies (#[trigger] cur[j]).1 < line_start(
                bytes,
                n,
            ) by {
                if j < pre.len() {
                    if n - 1 < line_count(bytes) {
                        assert(pre[j].1 < line_start(bytes, n - 1));
                    }
                }
            }
        }
    }
}

/// A record offset determines the record: two records of a file with the
/// same offset are the same entry of the record sequence.
pub proof fn lemma_records_of_offsets_distinct(bytes: Seq<u8>)
    requires
        bytes.len() <= u64::MAX,
    ensures
        forall|j1: int, j2: int|
            0 <= j1 < j2 < records_of(bytes).len() ==> (#[trigger] records_of(bytes)[j1]).1
                < (#[trigger] records_of(bytes)[j2]).1,
        forall|j: int|
            0 <= j < records_of(bytes).len() ==> (#[trigger] records_of(bytes)[j]).1 < bytes.len(),
{
    lemma_records_upto_offsets(bytes, line_count(bytes));
}

/// The line behind record `j` of the first `n` lines' records.
pub proof fn lemma_records_upto_line(bytes: Seq<u8>, n: int, j: int) -> (i: int)
    requires
        0 <= n <= line_count(bytes),
        0 <= j < records_upto(bytes, n).len(),
    ensures
        0 <= i < n,
        records_upto(bytes, n)[j] == record_at(bytes, i),
        clean_line(bytes, i).len() > 0,
    decreases n,
{
    let pre = records_upto(bytes, n - 1);
    if j < pre.len() {
        let i = lemma_records_upto_line(bytes, n - 1, j);
        i
    } else {
        n - 1
    }
}

/// The line behind a record: every record is `record_at` of a non-empty
/// line.
pub proof fn lemma_record_line(bytes: Seq<u8>, j: int) -> (i: int)
    requires
        0 <= j < records_of(bytes).len(),
    ensures
        0 <= i < line_count(bytes),
        records_of(bytes)[j] == record_at(bytes, i),
        clean_line(bytes, i).len() > 0,
{
    lemma_records_upto_line(bytes, line_count(bytes), j)
}

/// No `\n` lies strictly inside a line's span.
pub proof fn lemma_no_newline_inside_line(bytes: Seq<u8>, i: int)
    requires
        0 <= i < line_count(bytes),
    ensures
        forall|k: int| line_start(bytes, i) <= k < line_end(bytes, i) ==> bytes[k] != NEWLINE,
{
    lemma_newlines_props(bytes);
    let nl = newlines_of(bytes);
    assert forall|k: int|
        line_start(bytes, i) <= k < line_end(bytes, i) implies bytes[k] != NEWLINE by {
        if bytes[k] == NEWLINE {
            assert(nl.contains(k));
            let m = choose|m: int| 0 <= m < nl.len() && nl[m] == k;
            if i < nl.len() {
                // k < nl[i], so m < i; but then k <= nl[i-1] < line_start
                if m >= i {
                    if m > i {
                        assert(nl[i] < nl[m]);
                    }
                }
                assert(m < i);
                if m < i - 1 {
                    assert(nl[m] < nl[i - 1]);
                }
                assert(i > 0 ==> nl[m] <= nl[i - 1]);
                assert(i == 0 ==> k < 0);
            } else {
                // the tail line: k lies past every newline
                assert(i == nl.len());
                assert(i > 0 ==> line_start(bytes, i) == nl[i - 1] + 1);
                if m < i - 1 {
                    assert(nl[m] < nl[i - 1]);
                }
                assert(i > 0 ==> nl[m] <= nl[i - 1]);
                assert(i == 0 ==> k < 0);
            }
        }
    }
}

/// Reading back from a line's start recovers the line: the next `\n` is
/// the line's own terminator.
pub proof fn lemma_next_newline_at_line(bytes: Seq<u8>, i: int)
    requires
        0 <= i < line_count(bytes),
    ensures
        crate::retrieve::next_newline(bytes, line_start(bytes, i)) == line_end(bytes, i),
{
    lemma_newlines_props(bytes);
    lemma_line_bounds(bytes, i);
    lemma_no_newline_inside_line(bytes, i);
    crate::retrieve::lemma_next_newline_skip(bytes, line_start(bytes, i), line_end(bytes, i));
}

/// Scan every line of `bytes` into records: fingerprint each non-empty
/// cleaned line, paired with the line's start offset.
pub fn scan_records(bytes: &[u8], nls: &Vec<usize>) -> (rs: Vec<HashOffset>)
    requires
        nls@.map_values(|p: usize| p as int) == newlines_of(bytes@),
    ensures
        rs@ == records_of(bytes@),
{
    proof {
        lemma_newlines_props(bytes@);
    }
    let len = bytes.len();
    let n = nls.len();
    let mut rs: Vec<HashOffset> = Vec::new();
    let mut i: usize = 0;
    while i < n
        invariant
            i <= n,
            len == bytes@.len(),
            n == newlines_of(bytes@).len(),
            nls@.map_values(|p: usize| p as int) == newlines_of(bytes@),
            forall|k: int|
                0 <= k < n ==> 0 <= #[trigger] newlines_of(bytes@)[k] < len
                    && bytes@[newlines_of(bytes@)[k]] == NEWLINE,
            forall|k1: int, k2: int|
                0 <= k1 < k2 < n ==> #[trigger] newlines_of(bytes@)[k1]
                    < #[trigger] newlines_of(bytes@)[k2],
            rs@ == records_upto(bytes@, i as int),
        decreases n - i,
    {
        let start: usize = if i == 0 {
            0
        } else {
            nls[i - 1] + 1
        };
        let end: usize = nls[i];
        proof {
            assert(nls@[i as int] as int == newlines_of(bytes@)[i as int]);
            assert(start as int == line_start(bytes@, i as int));
            assert(end as int == line_end(bytes@, i as int));
        }
        let raw = slice_subrange(bytes, start, end);
        proof {
            assert(raw@ == raw_line(bytes@, i as int));
        }
        let raw_len = raw.len();
        let clean = if raw_len > 0 && *vstd::slice::slice_index_get(raw, raw_len - 1)
            == CARRIAGE_RETURN {
            slice_subrange(raw, 0, raw_len - 1)
        } else {
            raw
        };
        proof {
            if raw_len > 0 && raw@.last() == CARRIAGE_RETURN {
                assert(raw@.subrange(0, raw_len - 1) =~= raw@.drop_last());
            }
            assert(clean@ == clean_line(bytes@, i as int));
        }
        if clean.len() > 0 {
            let h = hash_line(clean);
            rs.push(HashOffset(h, start as u64));
            proof {
                assert(HashOffset(h, start as u64) == record_at(bytes@, i as int));
            }
        }
        i = i + 1;
    }
    let tstart: usize = if n == 0 {
        0
    } else {
        nls[n - 1] + 1
    };
    proof {
        assert(tstart as int == tail_start(bytes@));
    }
    if tstart < len {
        proof {
            assert(line_count(bytes@) == n + 1);
            assert(tstart as int == line_start(bytes@, n as int));
            assert(len as int == line_end(bytes@, n as int));
        }
        let raw = slice_subrange(bytes, tstart, len);
        proof {
            assert(raw@ == raw_line(bytes@, n as int));
        }
        let raw_len = raw.len();
        let clean = if raw_len > 0 && *vstd::slice::slice_index_get(raw, raw_len - 1)
            == CARRIAGE_RETURN {
            slice_subrange(raw, 0, raw_len - 1)
        } else {
            raw
        };
        proof {
            if raw_len > 0 && raw@.last() == CARRIAGE_RETURN {
                assert(raw@.subrange(0, raw_len - 1) =~= raw@.drop_last());
            }
            assert(clean@ == clean_line(bytes@, n as int));
        }
        if clean.len() > 0 {
            let h = hash_line(clean);
            rs.push(HashOffset(h, tstart as u64));
            proof {
                assert(HashOffset(h, tstart as u64) == record_at(bytes@, n as int));
            }
        }
    } else {
        proof {
            assert(line_count(bytes@) == n);
        }
    }
    rs
}

} // verus!
