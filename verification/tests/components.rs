//! Unit tests for the engine's components.

use linediff::codec::{decode_positions, decode_records, encode_positions, encode_records,
    DiffError, HashOffset};
use linediff::counts::generate_hash_counts_and_index;
use linediff::hash::hash_line;
use linediff::merge::{count_and_advance, merge_excess, sort_records_by_key};
use linediff::partition::{partition_records, NUM_PARTITIONS};
use linediff::reduce::reduce_excess;
use linediff::resolve::{count_newlines_range, line_number_from_index};
use linediff::scan::{find_newlines, scan_records};
use linediff::sort::sort_entries_by_offset;

#[test]
fn record_codec_round_trip() {
    let records = vec![
        HashOffset(0, 0),
        HashOffset(1, 2),
        HashOffset(u64::MAX, u64::MAX),
        HashOffset(0x0123_4567_89ab_cdef, 42),
    ];
    let bytes = encode_records(&records);
    assert_eq!(bytes.len(), 16 * records.len());
    let back = decode_records(bytes.as_slice());
    assert_eq!(back, records);
}

#[test]
fn record_encoding_is_little_endian() {
    let mut out: Vec<u8> = Vec::new();
    HashOffset(1, 0x0201).encode(&mut out);
    assert_eq!(
        out,
        vec![1, 0, 0, 0, 0, 0, 0, 0, 0x01, 0x02, 0, 0, 0, 0, 0, 0]
    );
}

#[test]
fn trailing_partial_frame_is_end_of_stream() {
    let mut bytes = encode_records(&vec![HashOffset(7, 9)]);
    bytes.extend_from_slice(&[1, 2, 3]);
    let back = decode_records(bytes.as_slice());
    assert_eq!(back, vec![HashOffset(7, 9)]);
}

#[test]
fn newline_index_codec_round_trip() {
    let positions: Vec<u64> = vec![0, 5, 11, 1_000_000];
    let bytes = encode_positions(&positions);
    assert_eq!(bytes.len(), 8 * positions.len());
    let back = decode_positions(bytes.as_slice()).unwrap();
    assert_eq!(back, positions);
}

#[test]
fn newline_index_invalid_size_is_rejected() {
    let bytes = vec![0u8; 13];
    assert_eq!(
        decode_positions(bytes.as_slice()),
        Err(DiffError::InvalidNewlineIndexSize)
    );
    assert!(decode_positions(&[0u8; 16]).is_ok());
}

#[test]
fn find_newlines_positions() {
    assert_eq!(find_newlines(b"a\nbb\n\nc"), vec![1, 4, 5]);
    assert_eq!(find_newlines(b""), Vec::<usize>::new());
    assert_eq!(find_newlines(b"no newline"), Vec::<usize>::new());
    assert_eq!(find_newlines(b"\n"), vec![0]);
}

#[test]
fn scan_records_offsets_and_hashes() {
    let bytes = b"aa\n\nbb\r\naa";
    let nls = find_newlines(bytes);
    let records = scan_records(bytes, &nls);
    // the empty line yields no record; "bb\r\n" fingerprints as "bb"
    assert_eq!(records.len(), 3);
    assert_eq!(records[0].1, 0);
    assert_eq!(records[1].1, 4);
    assert_eq!(records[2].1, 8);
    assert_eq!(records[0].0, hash_line(b"aa"));
    assert_eq!(records[1].0, hash_line(b"bb"));
    assert_eq!(records[2].0, records[0].0);
    assert_ne!(records[0].0, records[1].0);
}

#[test]
fn counts_and_earliest_offsets() {
    let records = vec![
        HashOffset(10, 30),
        HashOffset(20, 5),
        HashOffset(10, 7),
        HashOffset(10, 12),
    ];
    let m = generate_hash_counts_and_index(&records);
    assert_eq!(m.keys, vec![10, 20]);
    assert_eq!(m.counts.get(&10), Some(&3));
    assert_eq!(m.counts.get(&20), Some(&1));
    // the representative offset is the minimum, not the first seen
    assert_eq!(m.offsets.get(&10), Some(&7));
    assert_eq!(m.offsets.get(&20), Some(&5));
}

#[test]
fn reduce_reports_excess_only() {
    let a = generate_hash_counts_and_index(&vec![
        HashOffset(1, 0),
        HashOffset(1, 8),
        HashOffset(2, 16),
        HashOffset(3, 24),
    ]);
    let b = generate_hash_counts_and_index(&vec![HashOffset(1, 0), HashOffset(2, 8)]);
    let out = reduce_excess(&a, &b, false);
    assert_eq!(out, vec![(0, 1), (24, 1)]);
    let out_ignore = reduce_excess(&a, &b, true);
    assert_eq!(out_ignore, vec![(24, 1)]);
}

#[test]
fn partitioning_routes_by_residue() {
    let records = vec![
        HashOffset(0, 0),
        HashOffset(256, 8),
        HashOffset(257, 16),
        HashOffset(511, 24),
    ];
    let parts = partition_records(&records);
    assert_eq!(parts.len() as u64, NUM_PARTITIONS);
    assert_eq!(parts[0], vec![HashOffset(0, 0), HashOffset(256, 8)]);
    assert_eq!(parts[1], vec![HashOffset(257, 16)]);
    assert_eq!(parts[255], vec![HashOffset(511, 24)]);
    assert!(parts[2].is_empty());
}

#[test]
fn sorting_entries_by_offset() {
    let entries = vec![(9u64, 1usize), (3, 2), (7, 5), (1, 1)];
    let sorted = sort_entries_by_offset(&entries);
    assert_eq!(sorted, vec![(1, 1), (3, 2), (7, 5), (9, 1)]);
}

#[test]
fn sorting_records_lexicographically() {
    let records = vec![
        HashOffset(5, 9),
        HashOffset(2, 4),
        HashOffset(5, 1),
        HashOffset(2, 2),
    ];
    let sorted = sort_records_by_key(&records);
    assert_eq!(
        sorted,
        vec![
            HashOffset(2, 2),
            HashOffset(2, 4),
            HashOffset(5, 1),
            HashOffset(5, 9),
        ]
    );
}

#[test]
fn run_length_advance() {
    let v = vec![HashOffset(1, 0), HashOffset(1, 8), HashOffset(2, 16)];
    assert_eq!(count_and_advance(&v, 0), 2);
    assert_eq!(count_and_advance(&v, 2), 3);
}

#[test]
fn merging_sorted_streams() {
    let sa = sort_records_by_key(&vec![
        HashOffset(1, 0),
        HashOffset(1, 8),
        HashOffset(3, 16),
    ]);
    let sb = sort_records_by_key(&vec![HashOffset(1, 0), HashOffset(2, 8)]);
    let (ua, ub) = merge_excess(&sa, &sb);
    assert_eq!(ua, vec![(0, 1), (16, 1)]);
    assert_eq!(ub, vec![(8, 1)]);
}

#[test]
fn line_number_binary_search() {
    let positions: Vec<u64> = vec![2, 5, 9];
    assert_eq!(line_number_from_index(&positions, 0), 1);
    assert_eq!(line_number_from_index(&positions, 3), 2);
    assert_eq!(line_number_from_index(&positions, 6), 3);
    assert_eq!(line_number_from_index(&positions, 10), 4);
}

#[test]
fn counting_newlines_in_a_range() {
    let bytes = b"a\nb\n\nc\n";
    assert_eq!(count_newlines_range(bytes, 0, 7), 4);
    assert_eq!(count_newlines_range(bytes, 2, 5), 2);
    assert_eq!(count_newlines_range(bytes, 0, 0), 0);
    assert_eq!(count_newlines_range(bytes, 5, 7), 1);
}

#[test]
fn hashing_is_deterministic_and_discriminating() {
    assert_eq!(hash_line(b"same"), hash_line(b"same"));
    assert_ne!(hash_line(b"same"), hash_line(b"different"));
    assert_ne!(hash_line(b""), hash_line(b"x"));
}
