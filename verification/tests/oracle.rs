//! A generated comparison checked against a naive reference diff.

use linediff::engine::{
    run_comparison_in_memory, run_comparison_partitioned, run_comparison_sort_merge, CompareConfig,
};
use std::collections::HashMap;

/// Deterministic pseudo-random line maker.
struct Lcg(u64);

impl Lcg {
    fn next(&mut self) -> u64 {
        self.0 = self.0.wrapping_mul(6364136223846793005).wrapping_add(1442695040888963407);
        self.0 >> 33
    }
}

fn make_file(seed: u64, lines: usize) -> Vec<u8> {
    let vocabulary = [
        "alpha", "bravo", "charlie", "delta", "echo", "foxtrot", "golf", "hotel", "india",
        "juliett", "kilo", "lima",
    ];
    let mut rng = Lcg(seed);
    let mut out = Vec::new();
    for _ in 0..lines {
        let word = vocabulary[(rng.next() as usize) % vocabulary.len()];
        let tag = rng.next() % 7;
        out.extend_from_slice(word.as_bytes());
        out.extend_from_slice(tag.to_string().as_bytes());
        out.push(b'\n');
    }
    out
}

/// The expected events of one side, computed the slow way: per distinct
/// line, the count surplus, annotated text, and the first occurrence's
/// line number, sorted by line number.
fn reference_side(own: &[u8], other: &[u8], file_id: &str) -> Vec<(String, usize, String)> {
    let split = |bytes: &[u8]| -> Vec<String> {
        bytes
            .split(|&b| b == b'\n')
            .filter(|l| !l.is_empty())
            .map(|l| String::from_utf8(l.to_vec()).unwrap())
            .collect()
    };
    let own_lines = split(own);
    let other_lines = split(other);
    let mut other_counts: HashMap<&str, usize> = HashMap::new();
    for l in &other_lines {
        *other_counts.entry(l).or_insert(0) += 1;
    }
    let mut own_counts: HashMap<&str, usize> = HashMap::new();
    let mut first_line: HashMap<&str, usize> = HashMap::new();
    for (i, l) in own_lines.iter().enumerate() {
        *own_counts.entry(l).or_insert(0) += 1;
        first_line.entry(l).or_insert(i + 1);
    }
    let mut events: Vec<(String, usize, String)> = Vec::new();
    for (l, &ca) in &own_counts {
        let cb = other_counts.get(l).copied().unwrap_or(0);
        if ca > cb {
            let excess = ca - cb;
            let text = if excess > 1 {
                format!("{}\n(x{})", l, excess)
            } else {
                l.to_string()
            };
            events.push((file_id.to_string(), first_line[l], text));
        }
    }
    events.sort_by_key(|e| e.1);
    events
}

#[test]
fn generated_input_matches_reference_diff() {
    let file_a = make_file(12345, 400);
    let file_b = make_file(67890, 350);
    let expected_a = reference_side(&file_a, &file_b, "A");
    let expected_b = reference_side(&file_b, &file_a, "B");
    assert!(!expected_a.is_empty());
    assert!(!expected_b.is_empty());
    let cfg = CompareConfig {
        use_external_sort: false,
        ignore_occurences: false,
        use_single_thread: true,
        ignore_line_number: false,
    };
    let runs = [
        run_comparison_in_memory(&file_a, &file_b, cfg),
        run_comparison_partitioned(&file_a, &file_b, cfg),
        run_comparison_sort_merge(&file_a, &file_b, cfg),
    ];
    for (ea, eb) in &runs {
        let got_a: Vec<(String, usize, String)> =
            ea.iter().map(|e| (e.file.clone(), e.line_number, e.text.clone())).collect();
        let got_b: Vec<(String, usize, String)> =
            eb.iter().map(|e| (e.file.clone(), e.line_number, e.text.clone())).collect();
        assert_eq!(got_a, expected_a);
        assert_eq!(got_b, expected_b);
    }
}
