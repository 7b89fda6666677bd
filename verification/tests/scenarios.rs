//! End-to-end comparison scenarios, run through every algorithmic variant.

use linediff::engine::{
    run_comparison, run_comparison_in_memory, run_comparison_partitioned, run_comparison_sort_merge,
    CompareConfig,
};
use linediff::payloads::UniqueLinePayload;

fn config() -> CompareConfig {
    CompareConfig {
        use_external_sort: false,
        ignore_occurences: false,
        use_single_thread: true,
        ignore_line_number: false,
    }
}

fn all_modes(a: &[u8], b: &[u8], cfg: CompareConfig) -> Vec<(Vec<UniqueLinePayload>, Vec<UniqueLinePayload>)> {
    vec![
        run_comparison_in_memory(a, b, cfg),
        run_comparison_partitioned(a, b, cfg),
    ]
}

fn check_event(ev: &UniqueLinePayload, file: &str, line_number: usize, text: &str) {
    assert_eq!(ev.file, file);
    assert_eq!(ev.line_number, line_number);
    assert_eq!(ev.text, text);
}

#[test]
fn identical_files() {
    let a = b"apple\nbanana\ncherry\n";
    for (ea, eb) in all_modes(a, a, config()) {
        assert!(ea.is_empty());
        assert!(eb.is_empty());
    }
    let (ea, eb) = run_comparison_sort_merge(a, a, config());
    assert!(ea.is_empty());
    assert!(eb.is_empty());
}

#[test]
fn pure_insertion() {
    let a = b"a\nb\nc\n";
    let b = b"a\nb\nc\nd\n";
    for (ea, eb) in all_modes(a, b, config()) {
        assert!(ea.is_empty());
        assert_eq!(eb.len(), 1);
        check_event(&eb[0], "B", 4, "d");
    }
    let (ea, eb) = run_comparison_sort_merge(a, b, config());
    assert!(ea.is_empty());
    assert_eq!(eb.len(), 1);
    check_event(&eb[0], "B", 4, "d");
}

#[test]
fn duplicates_with_excess() {
    let a = b"x\nx\nx\ny\n";
    let b = b"x\ny\n";
    for (ea, eb) in all_modes(a, b, config()) {
        assert_eq!(ea.len(), 1);
        check_event(&ea[0], "A", 1, "x\n(x2)");
        assert!(eb.is_empty());
    }
    let (ea, eb) = run_comparison_sort_merge(a, b, config());
    assert_eq!(ea.len(), 1);
    check_event(&ea[0], "A", 1, "x\n(x2)");
    assert!(eb.is_empty());
}

#[test]
fn crlf_line_endings() {
    let a = b"hello\r\nworld\r\n";
    let b = b"hello\nworld\n";
    for (ea, eb) in all_modes(a, b, config()) {
        assert!(ea.is_empty());
        assert!(eb.is_empty());
    }
    let (ea, eb) = run_comparison_sort_merge(a, b, config());
    assert!(ea.is_empty());
    assert!(eb.is_empty());
}

#[test]
fn trailing_line_without_newline() {
    let a = b"a\nb";
    let b = b"a\n";
    for (ea, eb) in all_modes(a, b, config()) {
        assert_eq!(ea.len(), 1);
        check_event(&ea[0], "A", 2, "b");
        assert!(eb.is_empty());
    }
    let (ea, eb) = run_comparison_sort_merge(a, b, config());
    assert_eq!(ea.len(), 1);
    check_event(&ea[0], "A", 2, "b");
    assert!(eb.is_empty());
}

#[test]
fn empty_lines_are_ignored() {
    let a = b"a\n\n\nb\n";
    let b = b"a\nb\n";
    for (ea, eb) in all_modes(a, b, config()) {
        assert!(ea.is_empty());
        assert!(eb.is_empty());
    }
    let (ea, eb) = run_comparison_sort_merge(a, b, config());
    assert!(ea.is_empty());
    assert!(eb.is_empty());
}

#[test]
fn ignore_line_number_emits_zero() {
    let a = b"a\nb\nc\n";
    let b = b"a\nb\nc\nd\n";
    let cfg = CompareConfig { ignore_line_number: true, ..config() };
    for (ea, eb) in all_modes(a, b, cfg) {
        assert!(ea.is_empty());
        assert_eq!(eb.len(), 1);
        check_event(&eb[0], "B", 0, "d");
    }
    let (ea, eb) = run_comparison_sort_merge(a, b, cfg);
    assert!(ea.is_empty());
    assert_eq!(eb.len(), 1);
    check_event(&eb[0], "B", 0, "d");
}

#[test]
fn dispatch_follows_config() {
    let a = b"left\nonly\n";
    let b = b"only\nright\n";
    let (ea, eb) = run_comparison(a, b, config());
    assert_eq!(ea.len(), 1);
    check_event(&ea[0], "A", 1, "left");
    assert_eq!(eb.len(), 1);
    check_event(&eb[0], "B", 2, "right");
    let cfg = CompareConfig { use_external_sort: true, ..config() };
    let (ea2, eb2) = run_comparison(a, b, cfg);
    assert_eq!(ea2.len(), 1);
    check_event(&ea2[0], "A", 1, "left");
    assert_eq!(eb2.len(), 1);
    check_event(&eb2[0], "B", 2, "right");
}

#[test]
fn mode_equivalence_on_mixed_input() {
    let a = b"alpha\nbeta\nbeta\ngamma\ndelta\ndelta\ndelta\n";
    let b = b"beta\ngamma\ngamma\ndelta\nepsilon\n";
    let (ea1, eb1) = run_comparison_in_memory(a, b, config());
    let (ea2, eb2) = run_comparison_partitioned(a, b, config());
    let (ea3, eb3) = run_comparison_sort_merge(a, b, config());
    let norm = |evs: &Vec<UniqueLinePayload>| -> Vec<(String, usize, String)> {
        evs.iter().map(|e| (e.file.clone(), e.line_number, e.text.clone())).collect()
    };
    assert_eq!(norm(&ea1), norm(&ea2));
    assert_eq!(norm(&ea1), norm(&ea3));
    assert_eq!(norm(&eb1), norm(&eb2));
    assert_eq!(norm(&eb1), norm(&eb3));
    // spot checks on the shared outcome
    assert_eq!(ea1.len(), 3);
    check_event(&ea1[0], "A", 1, "alpha");
    check_event(&ea1[1], "A", 2, "beta");
    check_event(&ea1[2], "A", 5, "delta\n(x2)");
    assert_eq!(eb1.len(), 2);
    check_event(&eb1[0], "B", 2, "gamma");
    check_event(&eb1[1], "B", 5, "epsilon");
}

#[test]
fn idempotence_same_events_twice() {
    let a = b"one\ntwo\ntwo\nthree\n";
    let b = b"two\nfour\n";
    let (ea1, eb1) = run_comparison(a, b, config());
    let (ea2, eb2) = run_comparison(a, b, config());
    assert_eq!(ea1.len(), ea2.len());
    assert_eq!(eb1.len(), eb2.len());
    for (x, y) in ea1.iter().zip(ea2.iter()) {
        assert_eq!(x.file, y.file);
        assert_eq!(x.line_number, y.line_number);
        assert_eq!(x.text, y.text);
    }
    for (x, y) in eb1.iter().zip(eb2.iter()) {
        assert_eq!(x.file, y.file);
        assert_eq!(x.line_number, y.line_number);
        assert_eq!(x.text, y.text);
    }
}

#[test]
fn symmetry_under_swap() {
    let a = b"common\nleft\nleft\n";
    let b = b"common\nright\n";
    let (ea, eb) = run_comparison(a, b, config());
    let (ea_swapped, eb_swapped) = run_comparison(b, a, config());
    assert_eq!(ea_swapped.len(), eb.len());
    assert_eq!(eb_swapped.len(), ea.len());
    for (x, y) in ea_swapped.iter().zip(eb.iter()) {
        assert_eq!(x.file, "A");
        assert_eq!(y.file, "B");
        assert_eq!(x.line_number, y.line_number);
        assert_eq!(x.text, y.text);
    }
    for (x, y) in eb_swapped.iter().zip(ea.iter()) {
        assert_eq!(x.file, "B");
        assert_eq!(y.file, "A");
        assert_eq!(x.line_number, y.line_number);
        assert_eq!(x.text, y.text);
    }
}

#[test]
fn ignore_occurences_cancels_shared_lines() {
    let a = b"shared\nshared\nshared\nonly_a\n";
    let b = b"shared\nonly_b\n";
    let cfg = CompareConfig { ignore_occurences: true, ..config() };
    for (ea, eb) in all_modes(a, b, cfg) {
        // "shared" differs in count but is present on both sides: cancelled
        assert_eq!(ea.len(), 1);
        check_event(&ea[0], "A", 4, "only_a");
        assert_eq!(eb.len(), 1);
        check_event(&eb[0], "B", 2, "only_b");
    }
    // without the flag, the count difference is reported
    let (ea, _eb) = run_comparison_in_memory(a, b, config());
    assert_eq!(ea.len(), 2);
    check_event(&ea[0], "A", 1, "shared\n(x2)");
    check_event(&ea[1], "A", 4, "only_a");
}

#[test]
fn line_numbers_strictly_ascend() {
    let a = b"u0\nv\nu1\nv\nu2\nv\nu3\n";
    let b = b"v\nv\nv\n";
    for (ea, _eb) in all_modes(a, b, config()) {
        assert_eq!(ea.len(), 4);
        let mut last = 0usize;
        for ev in &ea {
            assert!(ev.line_number > last);
            last = ev.line_number;
        }
        assert_eq!(ea[0].line_number, 1);
        assert_eq!(ea[3].line_number, 7);
    }
}

#[test]
fn invalid_utf8_is_replaced() {
    let a = b"ok\n\xff\xfe\n";
    let b = b"ok\n";
    let (ea, eb) = run_comparison(a, b, config());
    assert_eq!(ea.len(), 1);
    assert_eq!(ea[0].line_number, 2);
    assert_eq!(ea[0].text, "\u{fffd}\u{fffd}");
    assert!(eb.is_empty());
}

#[test]
fn empty_file_against_content() {
    let a = b"";
    let b = b"solo\n";
    for (ea, eb) in all_modes(a, b, config()) {
        assert!(ea.is_empty());
        assert_eq!(eb.len(), 1);
        check_event(&eb[0], "B", 1, "solo");
    }
}
