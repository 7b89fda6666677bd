//! Line retrieval.
//!
//! For each excess entry `(offset, excess)` the owning file's line is read
//! back at the offset: the bytes up to the next `\n` (or the file end),
//! minus a trailing `\r`, decoded as UTF-8 with invalid sequences replaced.
//! An excess above one is annotated by appending `\n(x<excess>)`.  Entries
//! are emitted in ascending offset order, which is ascending line-number
//! order.

use crate::payloads::UniqueLinePayload;
use crate::resolve::{count_newlines_range, lemma_count_below_newlines, line_number_at,
    line_number_from_index, strictly_sorted};
use crate::scan::{lemma_newlines_props, memchr_first, newlines_of, strip_cr, CARRIAGE_RETURN,
    NEWLINE};
use crate::sort::{entries_sorted, lemma_sort_entries_props, sort_entries, sort_entries_by_offset};
use vstd::prelude::*;
use vstd::slice::{slice_index_get, slice_subrange, slice_to_vec};

verus! {

/// The decimal digits of `n`, most significant first.
pub open spec fn dec_bytes(n: nat) -> Seq<u8>
    decreases n,
{
    if n < 10 {
        seq![(48 + n) as u8]
    } else {
        dec_bytes(n / 10).push((48 + n % 10) as u8)
    }
}

/// Append the decimal digits of `n`.
pub fn push_decimal(out: &mut Vec<u8>, n: usize)
    ensures
        final(out)@ == old(out)@ + dec_bytes(n as nat),
    decreases n,
{
    if n >= 10 {
        push_decimal(out, n / 10);
        out.push((n % 10) as u8 + 48);
        proof {
            assert(out@ =~= old(out)@ + dec_bytes(n as nat));
        }
    } else {
        out.push(n as u8 + 48);
        proof {
            assert(out@ =~= old(out)@ + dec_bytes(n as nat));
        }
    }
}

/// The position of the first `\n` at or after `off`, or the file end.
pub open spec fn next_newline(bytes: Seq<u8>, off: int) -> int
    decreases bytes.len() - off,
{
    if off < 0 || off >= bytes.len() {
        bytes.len() as int
    } else if bytes[off] == NEWLINE {
        off
    } else {
        next_newline(bytes, off + 1)
    }
}

/// A newline-free gap does not move the next newline.
pub proof fn lemma_next_newline_skip(bytes: Seq<u8>, off: int, e: int)
    requires
        0 <= off <= e <= bytes.len(),
        forall|i: int| off <= i < e ==> bytes[i] != NEWLINE,
    ensures
        next_newline(bytes, off) == next_newline(bytes, e),
    decreases e - off,
{
    if off < e {
        lemma_next_newline_skip(bytes, off + 1, e);
    }
}

/// The line bytes retrieved at `off`: up to the next `\n` (or file end),
/// minus a trailing `\r`.
pub open spec fn retrieved_line(bytes: Seq<u8>, off: int) -> Seq<u8> {
    strip_cr(bytes.subrange(off, next_newline(bytes, off)))
}

/// The bytes of the emitted text for a line with the given excess.
pub open spec fn display_bytes(line: Seq<u8>, count: nat) -> Seq<u8> {
    if count > 1 {
        line + seq![NEWLINE] + seq![40u8, 120u8] + dec_bytes(count) + seq![41u8]
    } else {
        line
    }
}

/// What `String::from_utf8_lossy` makes of a byte sequence: a fixed
/// function of the bytes alone.
pub uninterp spec fn utf8_lossy(bytes: Seq<u8>) -> Seq<char>;

/// Relies on `String::from_utf8_lossy`: the result depends on the bytes
/// alone, and bytes that are all ASCII (valid UTF-8) decode to themselves,
/// one `char` per byte.
#[verifier::external_body]
fn lossy_decode(bytes: &[u8]) -> (s: String)
    ensures
        s@ == utf8_lossy(bytes@),
        (forall|i: int| 0 <= i < bytes@.len() ==> bytes@[i] < 128) ==> (s@.len() == bytes@.len()
            && forall|i: int| 0 <= i < bytes@.len() ==> s@[i] == bytes@[i] as char),
{
    String::from_utf8_lossy(bytes).into_owned()
}

/// The text of the event emitted for excess entry `(off, count)`.
pub open spec fn event_text(bytes: Seq<u8>, off: int, count: nat) -> Seq<char> {
    utf8_lossy(display_bytes(retrieved_line(bytes, off), count))
}

/// The line number of the event emitted at `off`.
pub open spec fn event_line_number(bytes: Seq<u8>, off: int, ignore_line_number: bool) -> int {
    if ignore_line_number {
        0
    } else {
        line_number_at(bytes, off)
    }
}

/// Does `ev` report excess entry `e` of the file `bytes` labelled `file_id`?
pub open spec fn is_unique_line_event(
    ev: UniqueLinePayload,
    bytes: Seq<u8>,
    file_id: Seq<char>,
    e: (u64, usize),
    ignore_line_number: bool,
) -> bool {
    &&& ev.file@ == file_id
    &&& ev.line_number as int == event_line_number(bytes, e.0 as int, ignore_line_number)
    &&& ev.text@ == event_text(bytes, e.0 as int, e.1 as nat)
}

/// The events of one side report exactly the side's sorted excess entries,
/// in order.
pub open spec fn events_match_entries(
    evs: Seq<UniqueLinePayload>,
    bytes: Seq<u8>,
    file_id: Seq<char>,
    entries: Seq<(u64, usize)>,
    ignore_line_number: bool,
) -> bool {
    &&& evs.len() == sort_entries(entries).len()
    &&& forall|k: int|
        0 <= k < evs.len() ==> is_unique_line_event(
            #[trigger] evs[k],
            bytes,
            file_id,
            sort_entries(entries)[k],
            ignore_line_number,
        )
}

/// Find the end of the line starting at `off` with a vectorized search.
fn find_line_end(bytes: &[u8], off: usize) -> (end: usize)
    requires
        off <= bytes@.len(),
    ensures
        end == next_newline(bytes@, off as int),
        off <= end <= bytes@.len(),
{
    let len = bytes.len();
    let sub = slice_subrange(bytes, off, len);
    match memchr_first(NEWLINE, sub) {
        Some(p) => {
            proof {
                assert(forall|i: int|
                    off <= i < off + p ==> bytes@[i] == sub@[i - off] && sub@[i - off] != NEWLINE);
                lemma_next_newline_skip(bytes@, off as int, off + p);
                assert(bytes@[off + p] == sub@[p as int]);
            }
            off + p
        },
        None => {
            proof {
                assert(forall|i: int|
                    off <= i < len ==> bytes@[i] == sub@[i - off] && sub@[i - off] != NEWLINE);
                lemma_next_newline_skip(bytes@, off as int, len as int);
            }
            len
        },
    }
}

/// Build the emitted text for the line at `off` with the given excess.
fn build_event_text(bytes: &[u8], off: usize, count: usize) -> (s: String)
    requires
        off < bytes@.len(),
    ensures
        s@ == event_text(bytes@, off as int, count as nat),
{
    let end = find_line_end(bytes, off);
    let raw = slice_subrange(bytes, off, end);
    let raw_len = raw.len();
    let clean = if raw_len > 0 && *slice_index_get(raw, raw_len - 1) == CARRIAGE_RETURN {
        slice_subrange(raw, 0, raw_len - 1)
    } else {
        raw
    };
    proof {
        if raw_len > 0 && raw@.last() == CARRIAGE_RETURN {
            assert(raw@.subrange(0, raw_len - 1) =~= raw@.drop_last());
        }
        assert(clean@ == retrieved_line(bytes@, off as int));
    }
    let mut disp: Vec<u8> = slice_to_vec(clean);
    if count > 1 {
        disp.push(NEWLINE);
        disp.push(40);
        disp.push(120);
        push_decimal(&mut disp, count);
        disp.push(41);
        proof {
            assert(disp@ =~= display_bytes(retrieved_line(bytes@, off as int), count as nat));
        }
    }
    lossy_decode(disp.as_slice())
}

/// Retrieve the unique-line events for one side, numbering lines with a
/// sequential newline-counting cursor.
pub fn collect_unique_lines_with_index(
    bytes: &[u8],
    entries: &Vec<(u64, usize)>,
    file_id: &str,
) -> (out: Vec<UniqueLinePayload>)
    requires
        forall|k: int| 0 <= k < entries@.len() ==> (#[trigger] entries@[k]).0 < bytes@.len(),
        bytes@.len() < usize::MAX,
    ensures
        events_match_entries(out@, bytes@, file_id@, entries@, false),
{
    proof {
        lemma_sort_entries_props(entries@);
    }
    let sorted = sort_entries_by_offset(entries);
    let ghost ss = sort_entries(entries@);
    proof {
        broadcast use vstd::seq_lib::group_to_multiset_ensures;

        assert forall|k: int| 0 <= k < ss.len() implies (#[trigger] ss[k]).0 < bytes@.len() by {
            assert(ss.to_multiset().contains(ss[k]));
            assert(entries@.contains(ss[k]));
            let j = choose|j: int| 0 <= j < entries@.len() && entries@[j] == ss[k];
        }
    }
    let mut out: Vec<UniqueLinePayload> = Vec::new();
    let n = sorted.len();
    let mut last_scan_offset: usize = 0;
    let mut last_line_number: usize = 0;
    let mut i: usize = 0;
    while i < n
        invariant
            i <= n,
            n == ss.len(),
            sorted@ == ss,
            bytes@.len() < usize::MAX,
            entries_sorted(ss),
            forall|k: int| 0 <= k < ss.len() ==> (#[trigger] ss[k]).0 < bytes@.len(),
            last_scan_offset <= bytes@.len(),
            i == 0 ==> last_scan_offset == 0,
            i > 0 ==> last_scan_offset == ss[i - 1].0,
            last_line_number == newlines_of(bytes@.take(last_scan_offset as int)).len(),
            out@.len() == i,
            forall|k: int|
                0 <= k < i ==> is_unique_line_event(
                    #[trigger] out@[k],
                    bytes@,
                    file_id@,
                    ss[k],
                    false,
                ),
        decreases n - i,
    {
        let e = *slice_index_get(sorted.as_slice(), i);
        let current_offset = e.0 as usize;
        proof {
            assert(ss[i as int].0 < bytes@.len());
            if i > 0 {
                assert(ss[i - 1].0 <= ss[i as int].0);
            }
        }
        let cnt = count_newlines_range(bytes, last_scan_offset, current_offset);
        proof {
            crate::scan::lemma_newlines_count_le_len(bytes@.take(current_offset as int));
        }
        let line_number = last_line_number + cnt + 1;
        let text = build_event_text(bytes, current_offset, e.1);
        let ev = UniqueLinePayload { file: file_id.to_owned(), line_number, text };
        out.push(ev);
        last_scan_offset = current_offset;
        last_line_number = line_number - 1;
        i = i + 1;
    }
    out
}

/// Retrieve the unique-line events for one side, numbering lines by binary
/// search on the newline index, or emitting 0 when numbering is off.
pub fn collect_unique_lines(
    bytes: &[u8],
    entries: &Vec<(u64, usize)>,
    newline_positions: Option<&Vec<u64>>,
    ignore_line_number: bool,
    file_id: &str,
) -> (out: Vec<UniqueLinePayload>)
    requires
        forall|k: int| 0 <= k < entries@.len() ==> (#[trigger] entries@[k]).0 < bytes@.len(),
        bytes@.len() < usize::MAX,
        !ignore_line_number ==> (newline_positions matches Some(ps) && ps@.map_values(
            |p: u64| p as int,
        ) == newlines_of(bytes@)),
    ensures
        events_match_entries(out@, bytes@, file_id@, entries@, ignore_line_number),
{
    proof {
        lemma_sort_entries_props(entries@);
    }
    let sorted = sort_entries_by_offset(entries);
    let ghost ss = sort_entries(entries@);
    proof {
        broadcast use vstd::seq_lib::group_to_multiset_ensures;

        assert forall|k: int| 0 <= k < ss.len() implies (#[trigger] ss[k]).0 < bytes@.len() by {
            assert(ss.to_multiset().contains(ss[k]));
            assert(entries@.contains(ss[k]));
            let j = choose|j: int| 0 <= j < entries@.len() && entries@[j] == ss[k];
        }
        if !ignore_line_number {
            let ps = newline_positions->Some_0;
            lemma_newlines_props(bytes@);
            assert(forall|k: int|
                0 <= k < ps@.len() ==> ps@[k] as int == #[trigger] newlines_of(bytes@)[k]);
            assert forall|k1: int, k2: int| 0 <= k1 < k2 < ps@.len() implies ps@[k1] < ps@[k2] by {
                assert(newlines_of(bytes@)[k1] < newlines_of(bytes@)[k2]);
            }
            assert(strictly_sorted(ps@));
        }
    }
    let mut out: Vec<UniqueLinePayload> = Vec::new();
    let n = sorted.len();
    let mut i: usize = 0;
    while i < n
        invariant
            i <= n,
            n == ss.len(),
            sorted@ == ss,
            bytes@.len() < usize::MAX,
            forall|k: int| 0 <= k < ss.len() ==> (#[trigger] ss[k]).0 < bytes@.len(),
            !ignore_line_number ==> (newline_positions matches Some(ps) && ps@.map_values(
                |p: u64| p as int,
            ) == newlines_of(bytes@) && strictly_sorted(ps@)),
            out@.len() == i,
            forall|k: int|
                0 <= k < i ==> is_unique_line_event(
                    #[trigger] out@[k],
                    bytes@,
                    file_id@,
                    ss[k],
                    ignore_line_number,
                ),
        decreases n - i,
    {
        let e = *slice_index_get(sorted.as_slice(), i);
        let current_offset = e.0 as usize;
        proof {
            assert(ss[i as int].0 < bytes@.len());
        }
        let line_number: usize = if ignore_line_number {
            0
        } else {
            match newline_positions {
                Some(ps) => {
                    proof {
                        assert(ps@.len() == newlines_of(bytes@).len());
                        crate::scan::lemma_newlines_count_le_len(bytes@);
                        lemma_count_below_newlines(bytes@, ps@, current_offset as int);
                        crate::scan::lemma_newlines_count_le_len(
                            bytes@.take(current_offset as int),
                        );
                    }
                    line_number_from_index(ps, e.0)
                },
                None => {
                    proof {
                        assert(false);
                    }
                    0
                },
            }
        };
        let text = build_event_text(bytes, current_offset, e.1);
        let ev = UniqueLinePayload { file: file_id.to_owned(), line_number, text };
        out.push(ev);
        i = i + 1;
    }
    out
}

} // verus!
