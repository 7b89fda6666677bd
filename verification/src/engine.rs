//! The diff engine: configuration, the record-level specification of a
//! comparison's outcome, and the in-memory pipeline.
//!
//! A comparison of two byte sequences yields, per side, one unique-line
//! event for every fingerprint with an excess on that side, in ascending
//! line order.  All algorithmic variants meet the same contract, stated
//! over the owning side's records in first-occurrence key order.

use crate::codec::HashOffset;
use crate::counts::{first_seen, generate_hash_counts_and_index, hash_count, lemma_first_seen_props,
    rep_offset, CountMap};
use crate::partition::{bucket_of, lemma_bucket_count, lemma_bucket_offsets_increasing,
    partition_records, NUM_PARTITIONS};
use crate::payloads::UniqueLinePayload;
use crate::reduce::{entry_for, excess_entries, excess_keys, is_excess, lemma_excess_keys_props,
    reduce_excess};
use crate::retrieve::{collect_unique_lines, collect_unique_lines_with_index, events_match_entries};
use crate::scan::{find_newlines, lemma_records_of_offsets_distinct, records_of, scan_records};
use crate::sort::{entries_distinct, lemma_multiset_eq_by_membership, lemma_sort_entries_props,
    lemma_sort_preserves_distinct, lemma_sorted_entries_unique, sort_entries};
use vstd::prelude::*;

verus! {

/// How a comparison is run.
#[derive(Clone, Copy, Debug, PartialEq, Eq, Structural)]
pub struct CompareConfig {
    /// Use the on-disk variants instead of the in-memory hash-count diff.
    pub use_external_sort: bool,
    /// Treat a fingerprint present on both sides as fully cancelled no
    /// matter the counts.
    pub ignore_occurences: bool,
    /// Process the two files one after the other instead of concurrently.
    pub use_single_thread: bool,
    /// Skip the newline index and emit `line_number` 0.
    pub ignore_line_number: bool,
}

/// The fingerprints of `keys`, in order, with an excess on the owning side.
pub open spec fn rec_excess_keys(
    keys: Seq<u64>,
    own: Seq<HashOffset>,
    other: Seq<HashOffset>,
    ignore_occurences: bool,
) -> Seq<u64>
    decreases keys.len(),
{
    if keys.len() == 0 {
        Seq::empty()
    } else {
        let pre = rec_excess_keys(keys.drop_last(), own, other, ignore_occurences);
        if is_excess(
            hash_count(own, keys.last()),
            hash_count(other, keys.last()),
            ignore_occurences,
        ) {
            pre.push(keys.last())
        } else {
            pre
        }
    }
}

/// The entry the owning side reports for fingerprint `h`: the earliest
/// occurrence's offset and the count surplus.
pub open spec fn rec_entry_for(own: Seq<HashOffset>, other: Seq<HashOffset>, h: u64) -> (u64, usize) {
    (rep_offset(own, h), (hash_count(own, h) - hash_count(other, h)) as usize)
}

/// The excess entries one side reports, in first-occurrence key order.
pub open spec fn side_entries(own: Seq<HashOffset>, other: Seq<HashOffset>, ignore_occurences: bool) -> Seq<
    (u64, usize),
> {
    rec_excess_keys(first_seen(own), own, other, ignore_occurences).map_values(
        |h: u64| rec_entry_for(own, other, h),
    )
}

/// The whole contract of a comparison: each side's events report exactly
/// its excess entries, ordered by offset.
pub open spec fn comparison_events_ok(
    events_a: Seq<UniqueLinePayload>,
    events_b: Seq<UniqueLinePayload>,
    file_a: Seq<u8>,
    file_b: Seq<u8>,
    ignore_occurences: bool,
    ignore_line_number: bool,
) -> bool {
    &&& events_match_entries(
        events_a,
        file_a,
        "A"@,
        side_entries(records_of(file_a), records_of(file_b), ignore_occurences),
        ignore_line_number,
    )
    &&& events_match_entries(
        events_b,
        file_b,
        "B"@,
        side_entries(records_of(file_b), records_of(file_a), ignore_occurences),
        ignore_line_number,
    )
}

/// A well-formed count map counts exactly like the records it models.
pub proof fn lemma_spec_count_is_hash_count(m: CountMap, rs: Seq<HashOffset>)
    requires
        m.wf(),
        m.models(rs),
    ensures
        forall|h: u64| #[trigger] m.spec_count(h) == hash_count(rs, h),
{
    lemma_first_seen_props(rs);
    assert forall|h: u64| #[trigger] m.spec_count(h) == hash_count(rs, h) by {
        if m.counts@.dom().contains(h) {
            assert(m.keys@.contains(h));
        } else {
            assert(!m.keys@.contains(h));
            assert(!first_seen(rs).contains(h));
        }
    }
}

/// The reducer's output over modelled count maps is the record-level
/// specification.
pub proof fn lemma_reduce_matches_records(
    a: CountMap,
    b: CountMap,
    own: Seq<HashOffset>,
    other: Seq<HashOffset>,
    ignore_occurences: bool,
)
    requires
        a.wf(),
        b.wf(),
        a.models(own),
        b.models(other),
    ensures
        excess_entries(a.keys@, a, b, ignore_occurences) == side_entries(
            own,
            other,
            ignore_occurences,
        ),
{
    lemma_spec_count_is_hash_count(a, own);
    lemma_spec_count_is_hash_count(b, other);
    lemma_first_seen_props(own);
    lemma_excess_keys_agree(a.keys@, a, b, own, other, ignore_occurences);
    let ek = excess_keys(a.keys@, a, b, ignore_occurences);
    lemma_excess_keys_props(a.keys@, a, b, ignore_occurences);
    assert forall|k: int| 0 <= k < ek.len() implies entry_for(a, b, ek[k]) == rec_entry_for(
        own,
        other,
        ek[k],
    ) by {
        assert(ek.contains(ek[k]));
        assert(a.keys@.contains(ek[k]));
    }
    assert(ek.map_values(|h: u64| entry_for(a, b, h)) =~= ek.map_values(
        |h: u64| rec_entry_for(own, other, h),
    ));
}

/// With equal counts on each fingerprint, map-level and record-level
/// excess keys coincide.
proof fn lemma_excess_keys_agree(
    keys: Seq<u64>,
    a: CountMap,
    b: CountMap,
    own: Seq<HashOffset>,
    other: Seq<HashOffset>,
    ignore_occurences: bool,
)
    requires
        forall|h: u64| #[trigger] a.spec_count(h) == hash_count(own, h),
        forall|h: u64| #[trigger] b.spec_count(h) == hash_count(other, h),
    ensures
        excess_keys(keys, a, b, ignore_occurences) == rec_excess_keys(
            keys,
            own,
            other,
            ignore_occurences,
        ),
    decreases keys.len(),
{
    if keys.len() > 0 {
        lemma_excess_keys_agree(keys.drop_last(), a, b, own, other, ignore_occurences);
    }
}

/// There is a record behind every representative offset.
pub proof fn lemma_rep_offset_witness(rs: Seq<HashOffset>, h: u64)
    requires
        hash_count(rs, h) > 0,
    ensures
        exists|j: int|
            0 <= j < rs.len() && (#[trigger] rs[j]).0 == h && rs[j].1 == rep_offset(rs, h),
    decreases rs.len(),
{
    let pre = rs.drop_last();
    if rs.last().0 == h {
        if hash_count(pre, h) == 0 {
            assert(rs[rs.len() - 1].0 == h && rs[rs.len() - 1].1 == rep_offset(rs, h));
        } else {
            lemma_rep_offset_witness(pre, h);
            if rs.last().1 < rep_offset(pre, h) {
                assert(rs[rs.len() - 1].0 == h && rs[rs.len() - 1].1 == rep_offset(rs, h));
            } else {
                let j = choose|j: int|
                    0 <= j < pre.len() && (#[trigger] pre[j]).0 == h && pre[j].1 == rep_offset(
                        pre,
                        h,
                    );
                assert(rs[j].0 == h && rs[j].1 == rep_offset(rs, h));
            }
        }
    } else {
        lemma_rep_offset_witness(pre, h);
        let j = choose|j: int|
            0 <= j < pre.len() && (#[trigger] pre[j]).0 == h && pre[j].1 == rep_offset(pre, h);
        assert(rs[j].0 == h && rs[j].1 == rep_offset(rs, h));
    }
}

/// Record offsets strictly increase: each record names a later byte than
/// the one before.
pub open spec fn offsets_increasing(rs: Seq<HashOffset>) -> bool {
    forall|j1: int, j2: int| 0 <= j1 < j2 < rs.len() ==> (#[trigger] rs[j1]).1 < (#[trigger] rs[j2]).1
}

/// With pairwise-distinct offsets, distinct fingerprints have distinct
/// representative offsets.
pub proof fn lemma_rep_offsets_injective(rs: Seq<HashOffset>)
    requires
        forall|j1: int, j2: int|
            0 <= j1 < j2 < rs.len() ==> (#[trigger] rs[j1]).1 != (#[trigger] rs[j2]).1,
    ensures
        forall|h1: u64, h2: u64|
            h1 != h2 && hash_count(rs, h1) > 0 && hash_count(rs, h2) > 0 ==> #[trigger] rep_offset(
                rs,
                h1,
            ) != #[trigger] rep_offset(rs, h2),
{
    assert forall|h1: u64, h2: u64|
        h1 != h2 && hash_count(rs, h1) > 0 && hash_count(rs, h2)
            > 0 implies #[trigger] rep_offset(rs, h1) != #[trigger] rep_offset(rs, h2) by {
        lemma_rep_offset_witness(rs, h1);
        lemma_rep_offset_witness(rs, h2);
        let j1 = choose|j: int|
            0 <= j < rs.len() && (#[trigger] rs[j]).0 == h1 && rs[j].1 == rep_offset(rs, h1);
        let j2 = choose|j: int|
            0 <= j < rs.len() && (#[trigger] rs[j]).0 == h2 && rs[j].1 == rep_offset(rs, h2);
        assert(j1 != j2);
        if j1 < j2 {
            assert(rs[j1].1 != rs[j2].1);
        } else {
            assert(rs[j2].1 != rs[j1].1);
        }
    }
}

/// A side's entries carry offsets of the owning side's records, no two
/// alike, all below `bound` when every record offset is.
pub proof fn lemma_side_entries_props_gen(
    own: Seq<HashOffset>,
    other: Seq<HashOffset>,
    ignore_occurences: bool,
    bound: int,
)
    requires
        forall|j1: int, j2: int|
            0 <= j1 < j2 < own.len() ==> (#[trigger] own[j1]).1 != (#[trigger] own[j2]).1,
        forall|j: int| 0 <= j < own.len() ==> (#[trigger] own[j]).1 < bound,
    ensures
        forall|k: int|
            0 <= k < side_entries(own, other, ignore_occurences).len() ==> (#[trigger] side_entries(
                own,
                other,
                ignore_occurences,
            )[k]).0 < bound,
        entries_distinct(side_entries(own, other, ignore_occurences)),
{
    let keys = first_seen(own);
    let ek = rec_excess_keys(keys, own, other, ignore_occurences);
    let es = side_entries(own, other, ignore_occurences);
    lemma_first_seen_props(own);
    lemma_rec_excess_keys_props(keys, own, other, ignore_occurences);
    lemma_rep_offsets_injective(own);
    assert forall|k: int| 0 <= k < es.len() implies (#[trigger] es[k]).0 < bound by {
        assert(ek.contains(ek[k]));
        assert(hash_count(own, ek[k]) > 0);
        lemma_rep_offset_witness(own, ek[k]);
        let j = choose|j: int|
            0 <= j < own.len() && (#[trigger] own[j]).0 == ek[k] && own[j].1 == rep_offset(
                own,
                ek[k],
            );
        assert(es[k].0 == own[j].1);
    }
    assert forall|k1: int, k2: int| 0 <= k1 < k2 < es.len() implies es[k1].0 != es[k2].0 by {
        assert(ek.contains(ek[k1]));
        assert(ek.contains(ek[k2]));
        assert(ek[k1] != ek[k2]);
        assert(hash_count(own, ek[k1]) > 0);
        assert(hash_count(own, ek[k2]) > 0);
        assert(es[k1].0 == rep_offset(own, ek[k1]));
        assert(es[k2].0 == rep_offset(own, ek[k2]));
    }
}

/// A side's entries carry offsets inside the owning file, no two alike.
pub proof fn lemma_side_entries_props(own_bytes: Seq<u8>, other: Seq<HashOffset>, ignore_occurences: bool)
    requires
        own_bytes.len() <= u64::MAX,
    ensures
        forall|k: int|
            0 <= k < side_entries(records_of(own_bytes), other, ignore_occurences).len() ==> (
            #[trigger] side_entries(records_of(own_bytes), other, ignore_occurences)[k]).0
                < own_bytes.len(),
        entries_distinct(side_entries(records_of(own_bytes), other, ignore_occurences)),
{
    lemma_records_of_offsets_distinct(own_bytes);
    lemma_side_entries_props_gen(
        records_of(own_bytes),
        other,
        ignore_occurences,
        own_bytes.len() as int,
    );
}

/// Excess keys are drawn from the key sequence, at most once each, and
/// carry a positive owning-side count.
pub proof fn lemma_rec_excess_keys_props(
    keys: Seq<u64>,
    own: Seq<HashOffset>,
    other: Seq<HashOffset>,
    ignore_occurences: bool,
)
    ensures
        forall|h: u64|
            #[trigger] rec_excess_keys(keys, own, other, ignore_occurences).contains(h) <==> (
            keys.contains(h) && is_excess(
                hash_count(own, h),
                hash_count(other, h),
                ignore_occurences,
            )),
        keys.no_duplicates() ==> rec_excess_keys(
            keys,
            own,
            other,
            ignore_occurences,
        ).no_duplicates(),
    decreases keys.len(),
{
    let ek = rec_excess_keys(keys, own, other, ignore_occurences);
    if keys.len() > 0 {
        let pre = keys.drop_last();
        let ek_pre = rec_excess_keys(pre, own, other, ignore_occurences);
        lemma_rec_excess_keys_props(pre, own, other, ignore_occurences);
        assert forall|h: u64| #[trigger] ek.contains(h) implies (keys.contains(h) && is_excess(
            hash_count(own, h),
            hash_count(other, h),
            ignore_occurences,
        )) by {
            let k = choose|k: int| 0 <= k < ek.len() && ek[k] == h;
            if k < ek_pre.len() {
                assert(ek_pre.contains(h));
                let j = choose|j: int| 0 <= j < pre.len() && pre[j] == h;
                assert(keys[j] == h);
            } else {
                assert(h == keys.last());
                assert(keys[keys.len() - 1] == h);
            }
        }
        assert forall|h: u64|
            keys.contains(h) && is_excess(
                hash_count(own, h),
                hash_count(other, h),
                ignore_occurences,
            ) implies #[trigger] ek.contains(h) by {
            let k = choose|k: int| 0 <= k < keys.len() && keys[k] == h;
            if k < keys.len() - 1 {
                assert(pre[k] == h);
                assert(ek_pre.contains(h));
                let j = choose|j: int| 0 <= j < ek_pre.len() && ek_pre[j] == h;
                assert(ek[j] == h);
            } else {
                assert(ek.last() == h);
            }
        }
        if keys.no_duplicates() {
            assert(pre.no_duplicates()) by {
                assert(forall|j: int| 0 <= j < pre.len() ==> pre[j] == keys[j]);
            }
            if is_excess(
                hash_count(own, keys.last()),
                hash_count(other, keys.last()),
                ignore_occurences,
            ) {
                assert(!pre.contains(keys.last())) by {
                    if pre.contains(keys.last()) {
                        let j = choose|j: int| 0 <= j < pre.len() && pre[j] == keys.last();
                        assert(keys[j] == keys[keys.len() - 1]);
                    }
                }
                assert(!ek_pre.contains(keys.last()));
                assert forall|k1: int, k2: int| 0 <= k1 < k2 < ek.len() implies ek[k1] != ek[k2] by {
                    if k2 < ek.len() - 1 {
                        assert(ek_pre[k1] != ek_pre[k2]);
                    } else {
                        if ek[k1] == keys.last() {
                            assert(ek_pre[k1] == keys.last());
                            assert(ek_pre.contains(keys.last()));
                        }
                    }
                }
            }
        }
    }
}

/// What a side reports from a single fingerprint's worth of counts.
pub open spec fn reports(own: Seq<HashOffset>, other: Seq<HashOffset>, ignore_occurences: bool, h: u64) -> bool {
    hash_count(own, h) > 0 && is_excess(
        hash_count(own, h),
        hash_count(other, h),
        ignore_occurences,
    )
}

/// The fingerprint behind entry `k` of a side's report.
pub proof fn side_entry_origin(
    own: Seq<HashOffset>,
    other: Seq<HashOffset>,
    ignore_occurences: bool,
    k: int,
) -> (h: u64)
    requires
        0 <= k < side_entries(own, other, ignore_occurences).len(),
    ensures
        reports(own, other, ignore_occurences, h),
        side_entries(own, other, ignore_occurences)[k] == rec_entry_for(own, other, h),
{
    let keys = first_seen(own);
    let ek = rec_excess_keys(keys, own, other, ignore_occurences);
    lemma_first_seen_props(own);
    lemma_rec_excess_keys_props(keys, own, other, ignore_occurences);
    assert(ek.contains(ek[k]));
    assert(keys.contains(ek[k]));
    ek[k]
}

/// Every reported fingerprint yields an entry.
pub proof fn lemma_side_entries_contains(
    own: Seq<HashOffset>,
    other: Seq<HashOffset>,
    ignore_occurences: bool,
    h: u64,
)
    requires
        reports(own, other, ignore_occurences, h),
    ensures
        side_entries(own, other, ignore_occurences).contains(rec_entry_for(own, other, h)),
{
    let keys = first_seen(own);
    let ek = rec_excess_keys(keys, own, other, ignore_occurences);
    let es = side_entries(own, other, ignore_occurences);
    lemma_first_seen_props(own);
    lemma_rec_excess_keys_props(keys, own, other, ignore_occurences);
    assert(keys.contains(h));
    assert(ek.contains(h));
    let k = choose|k: int| 0 <= k < ek.len() && ek[k] == h;
    assert(es[k] == rec_entry_for(own, other, h));
}

/// The entries of partitions `0 .. n`, concatenated in partition order.
pub open spec fn partitioned_entries(
    ra: Seq<HashOffset>,
    rb: Seq<HashOffset>,
    ignore_occurences: bool,
    n: int,
) -> Seq<(u64, usize)>
    decreases n,
{
    if n <= 0 {
        Seq::empty()
    } else {
        partitioned_entries(ra, rb, ignore_occurences, n - 1) + side_entries(
            bucket_of(ra, (n - 1) as u64),
            bucket_of(rb, (n - 1) as u64),
            ignore_occurences,
        )
    }
}

/// Within a fingerprint's own partition, per-bucket reporting is global
/// reporting: counts and representative offset carry over.
pub proof fn lemma_bucket_entry(ra: Seq<HashOffset>, rb: Seq<HashOffset>, ignore_occurences: bool, h: u64)
    ensures
        reports(
            bucket_of(ra, h % NUM_PARTITIONS),
            bucket_of(rb, h % NUM_PARTITIONS),
            ignore_occurences,
            h,
        ) == reports(ra, rb, ignore_occurences, h),
        rec_entry_for(bucket_of(ra, h % NUM_PARTITIONS), bucket_of(rb, h % NUM_PARTITIONS), h)
            == rec_entry_for(ra, rb, h),
{
    lemma_bucket_count(ra, h, h % NUM_PARTITIONS);
    lemma_bucket_count(rb, h, h % NUM_PARTITIONS);
}

/// The fingerprint behind entry `k` of the first `n` partitions' entries:
/// a reported fingerprint whose partition is already processed.
pub proof fn partitioned_entry_origin(
    ra: Seq<HashOffset>,
    rb: Seq<HashOffset>,
    ignore_occurences: bool,
    n: int,
    k: int,
) -> (h: u64)
    requires
        0 <= n <= NUM_PARTITIONS,
        0 <= k < partitioned_entries(ra, rb, ignore_occurences, n).len(),
    ensures
        (h % NUM_PARTITIONS) < n,
        reports(ra, rb, ignore_occurences, h),
        partitioned_entries(ra, rb, ignore_occurences, n)[k] == rec_entry_for(ra, rb, h),
    decreases n,
{
    let pe0 = partitioned_entries(ra, rb, ignore_occurences, n - 1);
    let i = (n - 1) as u64;
    let ba = bucket_of(ra, i);
    let bb = bucket_of(rb, i);
    let s = side_entries(ba, bb, ignore_occurences);
    if k < pe0.len() {
        let h = partitioned_entry_origin(ra, rb, ignore_occurences, n - 1, k);
        assert(partitioned_entries(ra, rb, ignore_occurences, n)[k] == pe0[k]);
        h
    } else {
        let h = side_entry_origin(ba, bb, ignore_occurences, k - pe0.len());
        lemma_bucket_count(ra, h, i);
        assert(h % NUM_PARTITIONS == i);
        lemma_bucket_entry(ra, rb, ignore_occurences, h);
        assert(partitioned_entries(ra, rb, ignore_occurences, n)[k] == s[k - pe0.len()]);
        h
    }
}

/// Every reported fingerprint of an already-processed partition appears in
/// the concatenated entries.
pub proof fn lemma_partitioned_contains(
    ra: Seq<HashOffset>,
    rb: Seq<HashOffset>,
    ignore_occurences: bool,
    n: int,
    h: u64,
)
    requires
        0 <= n <= NUM_PARTITIONS,
        (h % NUM_PARTITIONS) < n,
        reports(ra, rb, ignore_occurences, h),
    ensures
        partitioned_entries(ra, rb, ignore_occurences, n).contains(rec_entry_for(ra, rb, h)),
    decreases n,
{
    let pe0 = partitioned_entries(ra, rb, ignore_occurences, n - 1);
    let pe = partitioned_entries(ra, rb, ignore_occurences, n);
    let i = (n - 1) as u64;
    let ba = bucket_of(ra, i);
    let bb = bucket_of(rb, i);
    let s = side_entries(ba, bb, ignore_occurences);
    if (h % NUM_PARTITIONS) < n - 1 {
        lemma_partitioned_contains(ra, rb, ignore_occurences, n - 1, h);
        let k = choose|k: int| 0 <= k < pe0.len() && pe0[k] == rec_entry_for(ra, rb, h);
        assert(pe[k] == rec_entry_for(ra, rb, h));
    } else {
        assert(h % NUM_PARTITIONS == i);
        lemma_bucket_entry(ra, rb, ignore_occurences, h);
        lemma_side_entries_contains(ba, bb, ignore_occurences, h);
        let k = choose|k: int| 0 <= k < s.len() && s[k] == rec_entry_for(ba, bb, h);
        assert(pe[pe0.len() + k] == s[k]);
        assert(pe[pe0.len() + k] == rec_entry_for(ra, rb, h));
    }
}

/// No two of the concatenated per-partition entries share an offset: every
/// entry's offset is its fingerprint's representative offset in the whole
/// file, and those are injective.
pub proof fn lemma_partitioned_distinct(
    ra: Seq<HashOffset>,
    rb: Seq<HashOffset>,
    ignore_occurences: bool,
    n: int,
)
    requires
        0 <= n <= NUM_PARTITIONS,
        offsets_increasing(ra),
    ensures
        entries_distinct(partitioned_entries(ra, rb, ignore_occurences, n)),
        partitioned_entries(ra, rb, ignore_occurences, n).no_duplicates(),
    decreases n,
{
    lemma_rep_offsets_injective(ra);
    let pe = partitioned_entries(ra, rb, ignore_occurences, n);
    if n > 0 {
        lemma_partitioned_distinct(ra, rb, ignore_occurences, n - 1);
        let pe0 = partitioned_entries(ra, rb, ignore_occurences, n - 1);
        let i = (n - 1) as u64;
        let ba = bucket_of(ra, i);
        let bb = bucket_of(rb, i);
        let s = side_entries(ba, bb, ignore_occurences);
        lemma_bucket_offsets_increasing(ra, i);
        assert(forall|j: int| 0 <= j < ba.len() ==> (#[trigger] ba[j]).1 < u64::MAX as int + 1);
        lemma_side_entries_props_gen(ba, bb, ignore_occurences, u64::MAX as int + 1);
        assert forall|k1: int, k2: int| 0 <= k1 < k2 < pe.len() implies pe[k1].0 != pe[k2].0 by {
            if k2 < pe0.len() {
                assert(pe[k1] == pe0[k1] && pe[k2] == pe0[k2]);
                assert(pe0[k1].0 != pe0[k2].0);
            } else if k1 >= pe0.len() {
                assert(pe[k1] == s[k1 - pe0.len()] && pe[k2] == s[k2 - pe0.len()]);
                assert(s[k1 - pe0.len()].0 != s[k2 - pe0.len()].0);
            } else {
                // one from an earlier partition, one from partition i: the
                // owning fingerprints live in different residue classes
                let h1 = partitioned_entry_origin(ra, rb, ignore_occurences, n - 1, k1);
                let h2 = side_entry_origin(ba, bb, ignore_occurences, k2 - pe0.len());
                lemma_bucket_count(ra, h2, i);
                assert(h2 % NUM_PARTITIONS == i);
                lemma_bucket_entry(ra, rb, ignore_occurences, h2);
                assert(pe[k1] == pe0[k1] && pe[k2] == s[k2 - pe0.len()]);
                assert(pe[k1].0 == rep_offset(ra, h1));
                assert(pe[k2].0 == rep_offset(ra, h2));
                assert(h1 != h2);
                assert(rep_offset(ra, h1) != rep_offset(ra, h2));
            }
        }
    }
    assert forall|k1: int, k2: int| 0 <= k1 < k2 < pe.len() implies pe[k1] != pe[k2] by {
        assert(pe[k1].0 != pe[k2].0);
    }
}

/// Partition-wise reduction produces the same sorted entries as the
/// global reduction: every fingerprint is counted whole inside its own
/// partition.
pub proof fn lemma_partitioned_matches(ra: Seq<HashOffset>, rb: Seq<HashOffset>, ignore_occurences: bool)
    requires
        offsets_increasing(ra),
    ensures
        sort_entries(partitioned_entries(ra, rb, ignore_occurences, NUM_PARTITIONS as int))
            == sort_entries(side_entries(ra, rb, ignore_occurences)),
{
    let np = NUM_PARTITIONS as int;
    let pe = partitioned_entries(ra, rb, ignore_occurences, np);
    let g = side_entries(ra, rb, ignore_occurences);
    lemma_partitioned_distinct(ra, rb, ignore_occurences, np);
    lemma_rep_offsets_injective(ra);
    assert(forall|j: int| 0 <= j < ra.len() ==> (#[trigger] ra[j]).1 < u64::MAX as int + 1);
    lemma_side_entries_props_gen(ra, rb, ignore_occurences, u64::MAX as int + 1);
    assert forall|e: (u64, usize)| #[trigger] pe.contains(e) implies g.contains(e) by {
        let k = choose|k: int| 0 <= k < pe.len() && pe[k] == e;
        let h = partitioned_entry_origin(ra, rb, ignore_occurences, np, k);
        lemma_side_entries_contains(ra, rb, ignore_occurences, h);
    }
    assert forall|e: (u64, usize)| #[trigger] g.contains(e) implies pe.contains(e) by {
        let k = choose|k: int| 0 <= k < g.len() && g[k] == e;
        let h = side_entry_origin(ra, rb, ignore_occurences, k);
        assert(h % NUM_PARTITIONS < NUM_PARTITIONS);
        lemma_partitioned_contains(ra, rb, ignore_occurences, np, h);
    }
    assert forall|k1: int, k2: int| 0 <= k1 < k2 < g.len() implies g[k1] != g[k2] by {
        assert(g[k1].0 != g[k2].0);
    }
    lemma_multiset_eq_by_membership(g, pe);
    lemma_sort_entries_props(g);
    lemma_sort_entries_props(pe);
    lemma_sort_preserves_distinct(g);
    lemma_sorted_entries_unique(sort_entries(g), sort_entries(pe));
}

/// Widen newline positions for the persisted index form.
pub fn positions_to_u64(ps: &Vec<usize>) -> (out: Vec<u64>)
    ensures
        out@.len() == ps@.len(),
        forall|k: int| 0 <= k < ps@.len() ==> out@[k] == ps@[k] as u64,
{
    let mut out: Vec<u64> = Vec::new();
    let n = ps.len();
    let mut i: usize = 0;
    while i < n
        invariant
            i <= n,
            n == ps@.len(),
            out@.len() == i,
            forall|k: int| 0 <= k < i ==> out@[k] == ps@[k] as u64,
        decreases n - i,
    {
        out.push(*vstd::slice::slice_index_get(ps.as_slice(), i) as u64);
        i = i + 1;
    }
    out
}

/// Run the in-memory hash-count diff of two files given as byte slices.
pub fn run_comparison_in_memory(file_a: &[u8], file_b: &[u8], config: CompareConfig) -> (r: (
    Vec<UniqueLinePayload>,
    Vec<UniqueLinePayload>,
))
    requires
        file_a@.len() < usize::MAX,
        file_b@.len() < usize::MAX,
    ensures
        comparison_events_ok(
            r.0@,
            r.1@,
            file_a@,
            file_b@,
            config.ignore_occurences,
            config.ignore_line_number,
        ),
{
    let nls_a = find_newlines(file_a);
    let recs_a = scan_records(file_a, &nls_a);
    let nls_b = find_newlines(file_b);
    let recs_b = scan_records(file_b, &nls_b);
    let cm_a = generate_hash_counts_and_index(&recs_a);
    let cm_b = generate_hash_counts_and_index(&recs_b);
    let unique_to_a = reduce_excess(&cm_a, &cm_b, config.ignore_occurences);
    let unique_to_b = reduce_excess(&cm_b, &cm_a, config.ignore_occurences);
    proof {
        lemma_reduce_matches_records(
            cm_a,
            cm_b,
            records_of(file_a@),
            records_of(file_b@),
            config.ignore_occurences,
        );
        lemma_reduce_matches_records(
            cm_b,
            cm_a,
            records_of(file_b@),
            records_of(file_a@),
            config.ignore_occurences,
        );
        lemma_side_entries_props(file_a@, records_of(file_b@), config.ignore_occurences);
        lemma_side_entries_props(file_b@, records_of(file_a@), config.ignore_occurences);
    }
    let events_a = if config.ignore_line_number {
        collect_unique_lines(file_a, &unique_to_a, None, true, "A")
    } else {
        collect_unique_lines_with_index(file_a, &unique_to_a, "A")
    };
    let events_b = if config.ignore_line_number {
        collect_unique_lines(file_b, &unique_to_b, None, true, "B")
    } else {
        collect_unique_lines_with_index(file_b, &unique_to_b, "B")
    };
    (events_a, events_b)
}

/// Retrieve one side's events from entries whose sorted form equals the
/// sorted form of the side's specified entries.
fn collect_side(
    bytes: &[u8],
    entries: &Vec<(u64, usize)>,
    nls: &Vec<usize>,
    ignore_line_number: bool,
    file_id: &str,
    Ghost(spec_entries): Ghost<Seq<(u64, usize)>>,
) -> (out: Vec<UniqueLinePayload>)
    requires
        bytes@.len() < usize::MAX,
        sort_entries(entries@) == sort_entries(spec_entries),
        forall|k: int| 0 <= k < entries@.len() ==> (#[trigger] entries@[k]).0 < bytes@.len(),
        nls@.map_values(|p: usize| p as int) == crate::scan::newlines_of(bytes@),
    ensures
        events_match_entries(out@, bytes@, file_id@, spec_entries, ignore_line_number),
{
    let out = if ignore_line_number {
        collect_unique_lines(bytes, entries, None, true, file_id)
    } else {
        let ps = positions_to_u64(nls);
        proof {
            assert(ps@.map_values(|p: u64| p as int) =~= nls@.map_values(|p: usize| p as int));
        }
        collect_unique_lines(bytes, entries, Some(&ps), false, file_id)
    };
    proof {
        assert(events_match_entries(out@, bytes@, file_id@, spec_entries, ignore_line_number));
    }
    out
}

/// Run the external partitioned diff: records are bucketed by
/// `hash mod NUM_PARTITIONS` and each partition pair is reduced
/// independently; line numbers come from the newline index.
pub fn run_comparison_partitioned(file_a: &[u8], file_b: &[u8], config: CompareConfig) -> (r: (
    Vec<UniqueLinePayload>,
    Vec<UniqueLinePayload>,
))
    requires
        file_a@.len() < usize::MAX,
        file_b@.len() < usize::MAX,
    ensures
        comparison_events_ok(
            r.0@,
            r.1@,
            file_a@,
            file_b@,
            config.ignore_occurences,
            config.ignore_line_number,
        ),
{
    let ghost ra = records_of(file_a@);
    let ghost rb = records_of(file_b@);
    let nls_a = find_newlines(file_a);
    let recs_a = scan_records(file_a, &nls_a);
    let nls_b = find_newlines(file_b);
    let recs_b = scan_records(file_b, &nls_b);
    let parts_a = partition_records(&recs_a);
    let parts_b = partition_records(&recs_b);
    let mut unique_to_a: Vec<(u64, usize)> = Vec::new();
    let mut unique_to_b: Vec<(u64, usize)> = Vec::new();
    let np = NUM_PARTITIONS as usize;
    let mut i: usize = 0;
    while i < np
        invariant
            i <= np,
            np == NUM_PARTITIONS,
            parts_a@.len() == NUM_PARTITIONS,
            parts_b@.len() == NUM_PARTITIONS,
            forall|j: int|
                0 <= j < NUM_PARTITIONS ==> (#[trigger] parts_a@[j])@ == bucket_of(ra, j as u64),
            forall|j: int|
                0 <= j < NUM_PARTITIONS ==> (#[trigger] parts_b@[j])@ == bucket_of(rb, j as u64),
            unique_to_a@ == partitioned_entries(ra, rb, config.ignore_occurences, i as int),
            unique_to_b@ == partitioned_entries(rb, ra, config.ignore_occurences, i as int),
        decreases np - i,
    {
        let cm_a = generate_hash_counts_and_index(&parts_a[i]);
        let cm_b = generate_hash_counts_and_index(&parts_b[i]);
        let mut ea = reduce_excess(&cm_a, &cm_b, config.ignore_occurences);
        let mut eb = reduce_excess(&cm_b, &cm_a, config.ignore_occurences);
        proof {
            lemma_reduce_matches_records(
                cm_a,
                cm_b,
                bucket_of(ra, i as u64),
                bucket_of(rb, i as u64),
                config.ignore_occurences,
            );
            lemma_reduce_matches_records(
                cm_b,
                cm_a,
                bucket_of(rb, i as u64),
                bucket_of(ra, i as u64),
                config.ignore_occurences,
            );
        }
        unique_to_a.append(&mut ea);
        unique_to_b.append(&mut eb);
        i = i + 1;
    }
    proof {
        lemma_records_of_offsets_distinct(file_a@);
        lemma_records_of_offsets_distinct(file_b@);
        lemma_partitioned_matches(ra, rb, config.ignore_occurences);
        lemma_partitioned_matches(rb, ra, config.ignore_occurences);
        assert forall|k: int| 0 <= k < unique_to_a@.len() implies (#[trigger] unique_to_a@[k]).0
            < file_a@.len() by {
            let h = partitioned_entry_origin(
                ra,
                rb,
                config.ignore_occurences,
                NUM_PARTITIONS as int,
                k,
            );
            lemma_rep_offset_witness(ra, h);
            let j = choose|j: int|
                0 <= j < ra.len() && (#[trigger] ra[j]).0 == h && ra[j].1 == rep_offset(ra, h);
        }
        assert forall|k: int| 0 <= k < unique_to_b@.len() implies (#[trigger] unique_to_b@[k]).0
            < file_b@.len() by {
            let h = partitioned_entry_origin(
                rb,
                ra,
                config.ignore_occurences,
                NUM_PARTITIONS as int,
                k,
            );
            lemma_rep_offset_witness(rb, h);
            let j = choose|j: int|
                0 <= j < rb.len() && (#[trigger] rb[j]).0 == h && rb[j].1 == rep_offset(rb, h);
        }
    }
    let events_a = collect_side(
        file_a,
        &unique_to_a,
        &nls_a,
        config.ignore_line_number,
        "A",
        Ghost(side_entries(ra, rb, config.ignore_occurences)),
    );
    let events_b = collect_side(
        file_b,
        &unique_to_b,
        &nls_b,
        config.ignore_line_number,
        "B",
        Ghost(side_entries(rb, ra, config.ignore_occurences)),
    );
    (events_a, events_b)
}

/// Two record pools with the same per-fingerprint counts and
/// representative offsets, on both sides, report the same sorted entries.
pub proof fn lemma_side_entries_same_counts(
    own1: Seq<HashOffset>,
    other1: Seq<HashOffset>,
    own2: Seq<HashOffset>,
    other2: Seq<HashOffset>,
    ignore_occurences: bool,
)
    requires
        forall|h: u64| #[trigger] hash_count(own1, h) == hash_count(own2, h),
        forall|h: u64| #[trigger] rep_offset(own1, h) == rep_offset(own2, h),
        forall|h: u64| #[trigger] hash_count(other1, h) == hash_count(other2, h),
        forall|j1: int, j2: int|
            0 <= j1 < j2 < own1.len() ==> (#[trigger] own1[j1]).1 != (#[trigger] own1[j2]).1,
        forall|j1: int, j2: int|
            0 <= j1 < j2 < own2.len() ==> (#[trigger] own2[j1]).1 != (#[trigger] own2[j2]).1,
    ensures
        sort_entries(side_entries(own1, other1, ignore_occurences)) == sort_entries(
            side_entries(own2, other2, ignore_occurences),
        ),
{
    let g1 = side_entries(own1, other1, ignore_occurences);
    let g2 = side_entries(own2, other2, ignore_occurences);
    assert(forall|j: int| 0 <= j < own1.len() ==> (#[trigger] own1[j]).1 < u64::MAX as int + 1);
    assert(forall|j: int| 0 <= j < own2.len() ==> (#[trigger] own2[j]).1 < u64::MAX as int + 1);
    lemma_side_entries_props_gen(own1, other1, ignore_occurences, u64::MAX as int + 1);
    lemma_side_entries_props_gen(own2, other2, ignore_occurences, u64::MAX as int + 1);
    assert forall|e: (u64, usize)| #[trigger] g1.contains(e) implies g2.contains(e) by {
        let k = choose|k: int| 0 <= k < g1.len() && g1[k] == e;
        let h = side_entry_origin(own1, other1, ignore_occurences, k);
        assert(reports(own2, other2, ignore_occurences, h));
        assert(rec_entry_for(own2, other2, h) == rec_entry_for(own1, other1, h));
        lemma_side_entries_contains(own2, other2, ignore_occurences, h);
    }
    assert forall|e: (u64, usize)| #[trigger] g2.contains(e) implies g1.contains(e) by {
        let k = choose|k: int| 0 <= k < g2.len() && g2[k] == e;
        let h = side_entry_origin(own2, other2, ignore_occurences, k);
        assert(reports(own1, other1, ignore_occurences, h));
        assert(rec_entry_for(own1, other1, h) == rec_entry_for(own2, other2, h));
        lemma_side_entries_contains(own1, other1, ignore_occurences, h);
    }
    assert forall|k1: int, k2: int| 0 <= k1 < k2 < g1.len() implies g1[k1] != g1[k2] by {
        assert(g1[k1].0 != g1[k2].0);
    }
    assert forall|k1: int, k2: int| 0 <= k1 < k2 < g2.len() implies g2[k1] != g2[k2] by {
        assert(g2[k1].0 != g2[k2].0);
    }
    lemma_multiset_eq_by_membership(g1, g2);
    lemma_sort_entries_props(g1);
    lemma_sort_entries_props(g2);
    lemma_sort_preserves_distinct(g1);
    lemma_sorted_entries_unique(sort_entries(g1), sort_entries(g2));
}

/// Run the sort-merge diff: each file's records are sorted by
/// `(hash, offset)` and the two sorted streams are merged linearly.  This
/// variant compares counts and does not honor `ignore_occurences`.
pub fn run_comparison_sort_merge(file_a: &[u8], file_b: &[u8], config: CompareConfig) -> (r: (
    Vec<UniqueLinePayload>,
    Vec<UniqueLinePayload>,
))
    requires
        file_a@.len() < usize::MAX,
        file_b@.len() < usize::MAX,
    ensures
        comparison_events_ok(
            r.0@,
            r.1@,
            file_a@,
            file_b@,
            false,
            config.ignore_line_number,
        ),
{
    broadcast use vstd::seq_lib::group_to_multiset_ensures;

    let ghost ra = records_of(file_a@);
    let ghost rb = records_of(file_b@);
    let nls_a = find_newlines(file_a);
    let recs_a = scan_records(file_a, &nls_a);
    let nls_b = find_newlines(file_b);
    let recs_b = scan_records(file_b, &nls_b);
    proof {
        lemma_records_of_offsets_distinct(file_a@);
        lemma_records_of_offsets_distinct(file_b@);
        crate::merge::lemma_sort_records_props(ra);
        crate::merge::lemma_sort_records_props(rb);
        crate::merge::lemma_sort_records_distinct(ra);
        crate::merge::lemma_sort_records_distinct(rb);
    }
    let sorted_a = crate::merge::sort_records_by_key(&recs_a);
    let sorted_b = crate::merge::sort_records_by_key(&recs_b);
    let (unique_to_a, unique_to_b) = crate::merge::merge_excess(&sorted_a, &sorted_b);
    let ghost sa = crate::merge::sort_records(ra);
    let ghost sb = crate::merge::sort_records(rb);
    proof {
        lemma_side_entries_same_counts(sa, sb, ra, rb, false);
        lemma_side_entries_same_counts(sb, sa, rb, ra, false);
        // each produced entry is one of the sorted specified entries, so
        // its offset lies inside the owning file
        lemma_sort_entries_props(unique_to_a@);
        lemma_sort_entries_props(unique_to_b@);
        lemma_sort_entries_props(side_entries(sa, sb, false));
        lemma_sort_entries_props(side_entries(sb, sa, false));
        assert(forall|j: int| 0 <= j < sa.len() ==> (#[trigger] sa[j]).1 < u64::MAX as int + 1);
        assert(forall|j: int| 0 <= j < sb.len() ==> (#[trigger] sb[j]).1 < u64::MAX as int + 1);
        lemma_side_entries_props_gen(sa, sb, false, u64::MAX as int + 1);
        lemma_side_entries_props_gen(sb, sa, false, u64::MAX as int + 1);
        assert forall|k: int| 0 <= k < unique_to_a@.len() implies (#[trigger] unique_to_a@[k]).0
            < file_a@.len() by {
            let e = unique_to_a@[k];
            assert(unique_to_a@.contains(e));
            assert(unique_to_a@.to_multiset().contains(e));
            assert(sort_entries(unique_to_a@).to_multiset().contains(e));
            assert(sort_entries(side_entries(sa, sb, false)).to_multiset().contains(e));
            assert(side_entries(sa, sb, false).to_multiset().contains(e));
            assert(side_entries(sa, sb, false).contains(e));
            let m = choose|m: int|
                0 <= m < side_entries(sa, sb, false).len() && side_entries(sa, sb, false)[m] == e;
            let h = side_entry_origin(sa, sb, false, m);
            assert(e.0 == rep_offset(sa, h));
            assert(rep_offset(sa, h) == rep_offset(ra, h));
            assert(hash_count(ra, h) > 0);
            lemma_rep_offset_witness(ra, h);
            let j = choose|j: int|
                0 <= j < ra.len() && (#[trigger] ra[j]).0 == h && ra[j].1 == rep_offset(ra, h);
        }
        assert forall|k: int| 0 <= k < unique_to_b@.len() implies (#[trigger] unique_to_b@[k]).0
            < file_b@.len() by {
            let e = unique_to_b@[k];
            assert(unique_to_b@.contains(e));
            assert(unique_to_b@.to_multiset().contains(e));
            assert(sort_entries(unique_to_b@).to_multiset().contains(e));
            assert(sort_entries(side_entries(sb, sa, false)).to_multiset().contains(e));
            assert(side_entries(sb, sa, false).to_multiset().contains(e));
            assert(side_entries(sb, sa, false).contains(e));
            let m = choose|m: int|
                0 <= m < side_entries(sb, sa, false).len() && side_entries(sb, sa, false)[m] == e;
            let h = side_entry_origin(sb, sa, false, m);
            assert(e.0 == rep_offset(sb, h));
            assert(rep_offset(sb, h) == rep_offset(rb, h));
            assert(hash_count(rb, h) > 0);
            lemma_rep_offset_witness(rb, h);
            let j = choose|j: int|
                0 <= j < rb.len() && (#[trigger] rb[j]).0 == h && rb[j].1 == rep_offset(rb, h);
        }
    }
    let events_a = collect_side(
        file_a,
        &unique_to_a,
        &nls_a,
        config.ignore_line_number,
        "A",
        Ghost(side_entries(ra, rb, false)),
    );
    let events_b = collect_side(
        file_b,
        &unique_to_b,
        &nls_b,
        config.ignore_line_number,
        "B",
        Ghost(side_entries(rb, ra, false)),
    );
    (events_a, events_b)
}

/// Start a comparison over two in-memory files: the external partitioned
/// diff when `use_external_sort` is set, the in-memory hash-count diff
/// otherwise.
pub fn run_comparison(file_a: &[u8], file_b: &[u8], config: CompareConfig) -> (r: (
    Vec<UniqueLinePayload>,
    Vec<UniqueLinePayload>,
))
    requires
        file_a@.len() < usize::MAX,
        file_b@.len() < usize::MAX,
    ensures
        comparison_events_ok(
            r.0@,
            r.1@,
            file_a@,
            file_b@,
            config.ignore_occurences,
            config.ignore_line_number,
        ),
{
    if config.use_external_sort {
        run_comparison_partitioned(file_a, file_b, config)
    } else {
        run_comparison_in_memory(file_a, file_b, config)
    }
}

} // verus!
