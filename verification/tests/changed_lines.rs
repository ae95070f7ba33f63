use zorilla::changed_lines::{ChangedLines, ManifestError};

fn parse(s: &str) -> Result<ChangedLines, ManifestError> {
    ChangedLines::from_reader(s)
}

/// Asserts the parser returned `Malformed { line: expected_line }` with a
/// message that satisfies `predicate`.
fn assert_malformed(err: ManifestError, expected_line: usize, predicate: impl Fn(&str) -> bool) {
    let ManifestError::Malformed { line, message } = err else {
        panic!("expected ManifestError::Malformed");
    };
    assert_eq!(line, expected_line, "manifest line mismatch (message: {message})");
    assert!(predicate(&message), "predicate failed on message: {message}");
}

#[test]
fn parses_single_range_entry() {
    let cl = parse("tests/test_a.py:5-12\n").unwrap();
    assert!(!cl.is_empty());
    assert!(cl.keeps("tests/test_a.py", 5));
    assert!(cl.keeps("tests/test_a.py", 12));
    assert!(!cl.keeps("tests/test_a.py", 4));
    assert!(!cl.keeps("tests/test_a.py", 13));
}

#[test]
fn parses_multi_range_entry() {
    let cl = parse("tests/test_a.py:5-7,20-22\n").unwrap();
    assert!(cl.keeps("tests/test_a.py", 6));
    assert!(cl.keeps("tests/test_a.py", 21));
    assert!(!cl.keeps("tests/test_a.py", 10));
}

#[test]
fn whole_file_entry_keeps_all_lines() {
    let cl = parse("tests/test_a.py\n").unwrap();
    assert!(cl.keeps("tests/test_a.py", 1));
    assert!(cl.keeps("tests/test_a.py", 999_999));
}

#[test]
fn unions_ranges_across_repeated_entries() {
    let cl = parse("tests/test_a.py:1-3\ntests/test_a.py:5-7\n").unwrap();
    assert!(cl.keeps("tests/test_a.py", 1));
    assert!(cl.keeps("tests/test_a.py", 6));
    assert!(!cl.keeps("tests/test_a.py", 4));
}

#[test]
fn whole_file_appearance_promotes_prior_range_entry() {
    let cl = parse("tests/test_a.py:1-3\ntests/test_a.py\n").unwrap();
    // Whole-file wins — every line is kept.
    assert!(cl.keeps("tests/test_a.py", 99));
}

#[test]
fn whole_file_first_then_range_still_whole_file() {
    // Order shouldn't matter: bare path first, then range entry —
    // the bare path's "no filter" semantics still dominate.
    let cl = parse("tests/test_a.py\ntests/test_a.py:1-3\n").unwrap();
    assert!(cl.keeps("tests/test_a.py", 50));
}

#[test]
fn merges_overlapping_and_adjacent_ranges() {
    let cl = parse("tests/test_a.py:1-5,3-7,8-10\n").unwrap();
    // Merged into single 1-10 range.
    assert!(cl.keeps("tests/test_a.py", 1));
    assert!(cl.keeps("tests/test_a.py", 7));
    assert!(cl.keeps("tests/test_a.py", 10));
    assert!(!cl.keeps("tests/test_a.py", 11));
}

#[test]
fn skips_blank_lines_and_comments() {
    let cl = parse("\n# header\ntests/test_a.py:1-3\n\n   \n# trailer\n").unwrap();
    assert!(cl.keeps("tests/test_a.py", 2));
    assert_eq!(cl.paths().len(), 1);
}

#[test]
fn empty_manifest_has_no_entries() {
    let cl = parse("").unwrap();
    assert!(cl.is_empty());
    let cl = parse("# only comments\n\n").unwrap();
    assert!(cl.is_empty());
}

#[test]
fn malformed_non_integer_errors_with_line_number() {
    let err = parse("tests/test_a.py:abc-5\n").unwrap_err();
    assert_malformed(err, 1, |m| m.contains("not an integer"));
}

#[test]
fn malformed_reversed_range_errors() {
    let err = parse("\ntests/test_a.py:10-5\n").unwrap_err();
    // 1-indexed: the offending line is line 2.
    assert_malformed(err, 2, |m| m.contains("start > end"));
}

#[test]
fn malformed_zero_line_errors() {
    let err = parse("tests/test_a.py:0-3\n").unwrap_err();
    assert_malformed(err, 1, |m| m.contains('0'));
}

#[test]
fn malformed_empty_range_after_colon_errors() {
    let err = parse("tests/test_a.py:\n").unwrap_err();
    assert_malformed(err, 1, |m| m.contains("empty range"));
}

#[test]
fn malformed_missing_hyphen_errors() {
    let err = parse("tests/test_a.py:5\n").unwrap_err();
    assert_malformed(err, 1, |m| m.contains("missing '-'"));
}

#[test]
fn malformed_empty_range_segment_errors() {
    let err = parse("tests/test_a.py:1-3,,5-7\n").unwrap_err();
    assert_malformed(err, 1, |m| m.contains("empty range segment"));
}

#[test]
fn untracked_file_is_kept_entirely() {
    let cl = parse("tests/test_a.py:1-3\n").unwrap();
    // File not in manifest — kept regardless of line.
    assert!(cl.keeps("tests/other.py", 100));
}

#[test]
fn keeps_normalizes_dot_slash_prefix() {
    // Path canonicalization:
    // manifest typically has `tests/foo.py`, but the discovery
    // walker can emit `./tests/foo.py`. Both must match the same
    // manifest entry.
    let cl = parse("tests/test_a.py:1-3\n").unwrap();
    assert!(cl.keeps("./tests/test_a.py", 2));
    assert!(!cl.keeps("./tests/test_a.py", 99));
}

#[test]
fn keeps_normalizes_dot_slash_in_manifest() {
    // The reverse direction: manifest entry has `./` prefix while
    // finding's path is bare. Should still match.
    let cl = parse("./tests/test_a.py:1-3\n").unwrap();
    assert!(cl.keeps("tests/test_a.py", 2));
}

#[test]
fn paths_iter_returns_all_entries() {
    let cl = parse("a.py:1-1\nb.py\nc.py:5-7,10-12\n").unwrap();
    let mut names: Vec<String> = cl.paths();
    names.sort();
    assert_eq!(names, vec!["a.py", "b.py", "c.py"]);
}

#[test]
fn single_line_range_is_exact_point() {
    let cl = parse("a.py:7-7\n").unwrap();
    assert!(cl.keeps("a.py", 7));
    assert!(!cl.keeps("a.py", 6));
    assert!(!cl.keeps("a.py", 8));
}

#[test]
fn lint_filter_keeps_untracked_drops_out_of_range() {
    // Integration-shape test for the keeps() contract used by
    // lint_with_filter: tracked file with ranges drops out-of-range
    // hits, untracked file keeps everything.
    let cl = parse("tests/test_a.py:5-10\n").unwrap();
    assert!(cl.keeps("tests/test_a.py", 7));
    assert!(!cl.keeps("tests/test_a.py", 1));
    assert!(cl.keeps("tests/other.py", 1));
}

#[test]
fn malformed_range_quotes_control_characters_as_debug_does() {
    let err = parse("tests/a.py:1\u{1}-2\n").unwrap_err();
    assert_malformed(err, 1, |m| m.contains("\"1\\u{1}\""));
}

#[test]
fn reordered_manifest_keeps_the_same_lines() {
    let a = parse("tests/a.py:5-7\ntests/b.py\ntests/a.py:20-22\n").unwrap();
    let b = parse("tests/a.py:20-22\ntests/a.py:5-7\ntests/b.py\n").unwrap();
    let mut pa = a.paths();
    let mut pb = b.paths();
    pa.sort();
    pb.sort();
    assert_eq!(pa, pb);
    for line in 0..30 {
        assert_eq!(a.keeps("tests/a.py", line), b.keeps("tests/a.py", line), "line {line}");
        assert_eq!(a.keeps("tests/b.py", line), b.keeps("tests/b.py", line), "line {line}");
    }
    let c = parse("tests/a.py\ntests/a.py:1-2\n").unwrap();
    let d = parse("tests/a.py:1-2\ntests/a.py\n").unwrap();
    assert!(c.keeps("tests/a.py", 50) && d.keeps("tests/a.py", 50));
}

#[test]
fn only_comments_and_blank_lines_make_an_empty_manifest() {
    assert!(parse("").unwrap().is_empty());
    assert!(parse("# only comments\n\n   \n# more\n").unwrap().is_empty());
    assert!(!parse("# a comment\ntests/a.py\n").unwrap().is_empty());
}
