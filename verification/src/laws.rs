//! The engine's laws: what holds of every comparison.
//!
//! Each law is stated over the specification the runners are proved
//! against, so it holds of their outputs.  Laws about line content assume
//! the fingerprint function has no collision among the lines involved, as
//! the design accepts.

use crate::counts::{hash_count, rep_offset};
use crate::engine::{comparison_events_ok, lemma_rep_offset_witness, lemma_rep_offsets_injective,
    lemma_side_entries_contains, lemma_side_entries_props_gen, rec_entry_for, reports,
    side_entry_origin, side_entries};
use crate::hash::line_hash;
use crate::payloads::UniqueLinePayload;
use crate::resolve::{lemma_line_number_strict, line_number_at};
use crate::retrieve::{events_match_entries, retrieved_line};
use crate::scan::{clean_line, lemma_line_bounds, lemma_next_newline_at_line, lemma_record_line,
    lemma_records_of_offsets_distinct, line_count, line_start, newlines_of, records_of,
    records_upto, NEWLINE};
use crate::sort::{entries_distinct, lemma_sort_entries_props, lemma_sort_preserves_distinct,
    sort_entries};
use vstd::prelude::*;
use vstd::seq_lib::group_to_multiset_ensures;

verus! {

/// How many (non-empty, cleaned) lines among the first `n` equal `l`.
pub open spec fn line_occ_upto(bytes: Seq<u8>, l: Seq<u8>, n: int) -> nat
    decreases n,
{
    if n <= 0 {
        0
    } else {
        line_occ_upto(bytes, l, n - 1) + if clean_line(bytes, n - 1) == l {
            1nat
        } else {
            0nat
        }
    }
}

/// How many lines of the file carry exactly the bytes `l` (after the `\r`
/// strip).
pub open spec fn line_occurrences(bytes: Seq<u8>, l: Seq<u8>) -> nat {
    line_occ_upto(bytes, l, line_count(bytes))
}

/// No line of the file collides with `l`: an equal fingerprint means equal
/// bytes.
pub open spec fn no_collision_with(bytes: Seq<u8>, l: Seq<u8>) -> bool {
    forall|i: int|
        0 <= i < line_count(bytes) ==> (line_hash(#[trigger] clean_line(bytes, i)) == line_hash(l)
            ==> clean_line(bytes, i) == l)
}

/// Without collisions, a line's occurrence count is its fingerprint's
/// record count.
pub proof fn lemma_occurrences_are_counts(bytes: Seq<u8>, l: Seq<u8>, n: int)
    requires
        l.len() > 0,
        no_collision_with(bytes, l),
        0 <= n <= line_count(bytes),
    ensures
        hash_count(records_upto(bytes, n), line_hash(l)) == line_occ_upto(bytes, l, n),
    decreases n,
{
    if n > 0 {
        lemma_occurrences_are_counts(bytes, l, n - 1);
        let pre = records_upto(bytes, n - 1);
        if clean_line(bytes, n - 1).len() > 0 {
            assert(records_upto(bytes, n).drop_last() =~= pre);
        }
    }
}

/// Reading the file back at a line's start recovers the cleaned line.
pub proof fn lemma_retrieved_line_at(bytes: Seq<u8>, i: int)
    requires
        0 <= i < line_count(bytes),
    ensures
        retrieved_line(bytes, line_start(bytes, i)) == clean_line(bytes, i),
{
    lemma_next_newline_at_line(bytes, i);
}

/// Multiset-difference correctness: a line occurring `a` times in the
/// owning file and `b` times in the other is reported on the owning side
/// exactly when `a > b`, once, with excess `a - b`, at its earliest
/// occurrence — and not at all otherwise.  Assumes the fingerprints of the
/// two files' lines do not collide with the line's.
pub proof fn lemma_multiset_difference(file_a: Seq<u8>, file_b: Seq<u8>, l: Seq<u8>)
    requires
        l.len() > 0,
        no_collision_with(file_a, l),
        no_collision_with(file_b, l),
        file_a.len() <= u64::MAX,
    ensures
        ({
            let ra = records_of(file_a);
            let rb = records_of(file_b);
            let h = line_hash(l);
            let a = line_occurrences(file_a, l);
            let b = line_occurrences(file_b, l);
            let g = side_entries(ra, rb, false);
            &&& (a > b <==> reports(ra, rb, false, h))
            &&& (a > b ==> g.contains((rep_offset(ra, h), (a - b) as usize)))
            &&& (a > b ==> retrieved_line(file_a, rep_offset(ra, h) as int) == l)
            &&& entries_distinct(g)
            &&& (a <= b && a > 0 ==> forall|k: int|
                0 <= k < g.len() ==> (#[trigger] g[k]) != (rep_offset(ra, h), (a - b) as usize)
                    && g[k].0 != rep_offset(ra, h))
        }),
{
    let ra = records_of(file_a);
    let rb = records_of(file_b);
    let h = line_hash(l);
    let a = line_occurrences(file_a, l);
    let b = line_occurrences(file_b, l);
    let g = side_entries(ra, rb, false);
    lemma_occurrences_are_counts(file_a, l, line_count(file_a));
    lemma_occurrences_are_counts(file_b, l, line_count(file_b));
    assert(hash_count(ra, h) == a);
    assert(hash_count(rb, h) == b);
    lemma_records_of_offsets_distinct(file_a);
    lemma_rep_offsets_injective(ra);
    assert(forall|j: int| 0 <= j < ra.len() ==> (#[trigger] ra[j]).1 < file_a.len());
    lemma_side_entries_props_gen(ra, rb, false, file_a.len() as int);
    if a > b {
        lemma_side_entries_contains(ra, rb, false, h);
        assert(rec_entry_for(ra, rb, h) == (rep_offset(ra, h), (a - b) as usize));
        // the reported offset is the earliest occurrence of `l`
        lemma_rep_offset_witness(ra, h);
        let j = choose|j: int|
            0 <= j < ra.len() && (#[trigger] ra[j]).0 == h && ra[j].1 == rep_offset(ra, h);
        let i = lemma_record_line(file_a, j);
        assert(line_hash(clean_line(file_a, i)) == h);
        assert(clean_line(file_a, i) == l);
        lemma_line_bounds(file_a, i);
        assert(ra[j].1 == line_start(file_a, i) as u64);
        assert(rep_offset(ra, h) as int == line_start(file_a, i));
        lemma_retrieved_line_at(file_a, i);
    }
    if a <= b && a > 0 {
        assert forall|k: int| 0 <= k < g.len() implies (#[trigger] g[k]) != (
            rep_offset(ra, h),
            (a - b) as usize,
        ) && g[k].0 != rep_offset(ra, h) by {
            let h2 = side_entry_origin(ra, rb, false, k);
            assert(h2 != h);
            assert(g[k].0 == rep_offset(ra, h2));
            assert(rep_offset(ra, h2) != rep_offset(ra, h));
        }
    }
}

/// The event that reports an over-represented line: its text is the line
/// itself, annotated with the excess when above one, and its line number
/// is the earliest occurrence's.
pub proof fn event_index_for_line(
    evs: Seq<UniqueLinePayload>,
    file_a: Seq<u8>,
    file_b: Seq<u8>,
    l: Seq<u8>,
    file_id: Seq<char>,
    ignore_line_number: bool,
) -> (k: int)
    requires
        l.len() > 0,
        no_collision_with(file_a, l),
        no_collision_with(file_b, l),
        file_a.len() <= u64::MAX,
        line_occurrences(file_a, l) <= usize::MAX,
        line_occurrences(file_a, l) > line_occurrences(file_b, l),
        events_match_entries(
            evs,
            file_a,
            file_id,
            side_entries(records_of(file_a), records_of(file_b), false),
            ignore_line_number,
        ),
    ensures
        0 <= k < evs.len(),
        evs[k].text@ == crate::retrieve::utf8_lossy(
            crate::retrieve::display_bytes(
                l,
                (line_occurrences(file_a, l) - line_occurrences(file_b, l)) as nat,
            ),
        ),
        evs[k].line_number as int == crate::retrieve::event_line_number(
            file_a,
            rep_offset(records_of(file_a), line_hash(l)) as int,
            ignore_line_number,
        ),
        evs[k].file@ == file_id,
{
    broadcast use group_to_multiset_ensures;

    let ra = records_of(file_a);
    let rb = records_of(file_b);
    let h = line_hash(l);
    let a = line_occurrences(file_a, l);
    let b = line_occurrences(file_b, l);
    let g = side_entries(ra, rb, false);
    let e = (rep_offset(ra, h), (a - b) as usize);
    lemma_multiset_difference(file_a, file_b, l);
    assert(g.contains(e));
    lemma_sort_entries_props(g);
    let ss = sort_entries(g);
    assert(ss.to_multiset().contains(e));
    assert(ss.contains(e));
    let k = choose|k: int| 0 <= k < ss.len() && ss[k] == e;
    assert(crate::retrieve::is_unique_line_event(
        evs[k],
        file_a,
        file_id,
        e,
        ignore_line_number,
    ));
    assert(retrieved_line(file_a, e.0 as int) == l);
    k
}

/// Line-number monotonicity: with numbering on, a side's events come in
/// strictly ascending line numbers.
pub proof fn lemma_line_number_monotonic(
    evs: Seq<UniqueLinePayload>,
    own: Seq<u8>,
    other: Seq<u8>,
    file_id: Seq<char>,
    ignore_occurences: bool,
)
    requires
        own.len() <= u64::MAX,
        events_match_entries(
            evs,
            own,
            file_id,
            side_entries(records_of(own), records_of(other), ignore_occurences),
            false,
        ),
    ensures
        forall|k1: int, k2: int|
            0 <= k1 < k2 < evs.len() ==> (#[trigger] evs[k1]).line_number < (
            #[trigger] evs[k2]).line_number,
{
    broadcast use group_to_multiset_ensures;

    let ra = records_of(own);
    let rb = records_of(other);
    let g = side_entries(ra, rb, ignore_occurences);
    let ss = sort_entries(g);
    lemma_records_of_offsets_distinct(own);
    assert(forall|j: int| 0 <= j < ra.len() ==> (#[trigger] ra[j]).1 < own.len());
    lemma_side_entries_props_gen(ra, rb, ignore_occurences, own.len() as int);
    lemma_sort_entries_props(g);
    lemma_sort_preserves_distinct(g);
    // every sorted entry's offset starts a line of the owning file
    assert forall|k: int| 0 <= k < ss.len() implies (#[trigger] ss[k]).0 < own.len() && (ss[k].0
        == 0 || own[ss[k].0 - 1] == NEWLINE) by {
        assert(ss.to_multiset().contains(ss[k]));
        assert(g.contains(ss[k]));
        let m = choose|m: int| 0 <= m < g.len() && g[m] == ss[k];
        let h = side_entry_origin(ra, rb, ignore_occurences, m);
        lemma_rep_offset_witness(ra, h);
        let j = choose|j: int|
            0 <= j < ra.len() && (#[trigger] ra[j]).0 == h && ra[j].1 == rep_offset(ra, h);
        let i = lemma_record_line(own, j);
        lemma_line_bounds(own, i);
        assert(ra[j].1 == line_start(own, i) as u64);
        assert(ss[k].0 as int == line_start(own, i));
    }
    assert forall|k1: int, k2: int|
        0 <= k1 < k2 < evs.len() implies (#[trigger] evs[k1]).line_number < (
    #[trigger] evs[k2]).line_number by {
        let o1 = ss[k1].0 as int;
        let o2 = ss[k2].0 as int;
        assert(ss[k1].0 <= ss[k2].0 && ss[k1].0 != ss[k2].0);
        assert(o2 > 0 && own[o2 - 1] == NEWLINE);
        lemma_line_number_strict(own, o1, o2);
        assert(evs[k1].line_number as int == line_number_at(own, o1));
        assert(evs[k2].line_number as int == line_number_at(own, o2));
    }
}

/// Line-number correctness: a reported line's number is the count of `\n`
/// bytes before the line's start offset, plus one.
pub proof fn lemma_line_number_from_offset(bytes: Seq<u8>, off: int)
    requires
        0 <= off <= bytes.len(),
    ensures
        line_number_at(bytes, off) == newlines_of(bytes.take(off)).len() + 1,
        forall|k: int|
            0 <= k < newlines_of(bytes).len() ==> (#[trigger] newlines_of(bytes)[k] < off <==> k
                < newlines_of(bytes.take(off)).len()),
{
    crate::resolve::lemma_newlines_prefix(bytes, off);
}

/// Determinism and mode equivalence: any two event-sequence pairs meeting
/// a comparison's contract on the same inputs agree field by field.
pub proof fn lemma_comparison_deterministic(
    ea1: Seq<UniqueLinePayload>,
    eb1: Seq<UniqueLinePayload>,
    ea2: Seq<UniqueLinePayload>,
    eb2: Seq<UniqueLinePayload>,
    file_a: Seq<u8>,
    file_b: Seq<u8>,
    ignore_occurences: bool,
    ignore_line_number: bool,
)
    requires
        comparison_events_ok(ea1, eb1, file_a, file_b, ignore_occurences, ignore_line_number),
        comparison_events_ok(ea2, eb2, file_a, file_b, ignore_occurences, ignore_line_number),
    ensures
        ea1.len() == ea2.len(),
        eb1.len() == eb2.len(),
        forall|k: int|
            0 <= k < ea1.len() ==> (#[trigger] ea1[k]).file@ == ea2[k].file@ && ea1[k].line_number
                == ea2[k].line_number && ea1[k].text@ == ea2[k].text@,
        forall|k: int|
            0 <= k < eb1.len() ==> (#[trigger] eb1[k]).file@ == eb2[k].file@ && eb1[k].line_number
                == eb2[k].line_number && eb1[k].text@ == eb2[k].text@,
{
}

/// Symmetry under swap: comparing B against A yields A's events with the
/// other label, and vice versa — same line numbers, same texts.
pub proof fn lemma_swap_symmetry(
    ea: Seq<UniqueLinePayload>,
    eb: Seq<UniqueLinePayload>,
    ea_swapped: Seq<UniqueLinePayload>,
    eb_swapped: Seq<UniqueLinePayload>,
    file_a: Seq<u8>,
    file_b: Seq<u8>,
    ignore_occurences: bool,
    ignore_line_number: bool,
)
    requires
        comparison_events_ok(ea, eb, file_a, file_b, ignore_occurences, ignore_line_number),
        comparison_events_ok(
            ea_swapped,
            eb_swapped,
            file_b,
            file_a,
            ignore_occurences,
            ignore_line_number,
        ),
    ensures
        ea_swapped.len() == eb.len(),
        eb_swapped.len() == ea.len(),
        forall|k: int|
            0 <= k < eb.len() ==> (#[trigger] ea_swapped[k]).line_number == eb[k].line_number
                && ea_swapped[k].text@ == eb[k].text@ && ea_swapped[k].file@ == "A"@ && eb[k].file@
                == "B"@,
        forall|k: int|
            0 <= k < ea.len() ==> (#[trigger] eb_swapped[k]).line_number == ea[k].line_number
                && eb_swapped[k].text@ == ea[k].text@ && eb_swapped[k].file@ == "B"@ && ea[k].file@
                == "A"@,
{
}

/// `ignore_occurences` semantics: a fingerprint present on both sides is
/// fully cancelled — no entry of either side carries its representative
/// offset, whatever the counts.
pub proof fn lemma_ignore_occurences_cancels(file_a: Seq<u8>, file_b: Seq<u8>, h: u64)
    requires
        file_a.len() <= u64::MAX,
        file_b.len() <= u64::MAX,
        hash_count(records_of(file_a), h) > 0,
        hash_count(records_of(file_b), h) > 0,
    ensures
        ({
            let ra = records_of(file_a);
            let rb = records_of(file_b);
            &&& forall|k: int|
                0 <= k < side_entries(ra, rb, true).len() ==> (#[trigger] side_entries(
                    ra,
                    rb,
                    true,
                )[k]).0 != rep_offset(ra, h)
            &&& forall|k: int|
                0 <= k < side_entries(rb, ra, true).len() ==> (#[trigger] side_entries(
                    rb,
                    ra,
                    true,
                )[k]).0 != rep_offset(rb, h)
        }),
{
    let ra = records_of(file_a);
    let rb = records_of(file_b);
    lemma_records_of_offsets_distinct(file_a);
    lemma_records_of_offsets_distinct(file_b);
    lemma_rep_offsets_injective(ra);
    lemma_rep_offsets_injective(rb);
    assert forall|k: int| 0 <= k < side_entries(ra, rb, true).len() implies (
    #[trigger] side_entries(ra, rb, true)[k]).0 != rep_offset(ra, h) by {
        let h2 = side_entry_origin(ra, rb, true, k);
        assert(hash_count(rb, h2) == 0);
        assert(h2 != h);
        assert(side_entries(ra, rb, true)[k].0 == rep_offset(ra, h2));
        assert(rep_offset(ra, h2) != rep_offset(ra, h));
    }
    assert forall|k: int| 0 <= k < side_entries(rb, ra, true).len() implies (
    #[trigger] side_entries(rb, ra, true)[k]).0 != rep_offset(rb, h) by {
        let h2 = side_entry_origin(rb, ra, true, k);
        assert(hash_count(ra, h2) == 0);
        assert(h2 != h);
        assert(side_entries(rb, ra, true)[k].0 == rep_offset(rb, h2));
        assert(rep_offset(rb, h2) != rep_offset(rb, h));
    }
}

} // verus!
