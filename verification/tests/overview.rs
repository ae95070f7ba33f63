use zorilla::overview::{compute_overview, format_overview_text};
use zorilla::report::{Finding, Report, Severity};

fn finding(code: &'static str, file: &str, line: usize, column: usize) -> Finding {
    Finding {
        code,
        message: "msg".to_string(),
        file: file.to_string(),
        line,
        column,
        severity: Severity::Warning,
    }
}

fn paths(v: &[&str]) -> Vec<String> {
    v.iter().map(|s| s.to_string()).collect()
}

#[test]
fn compute_overview_on_empty_report_produces_empty_files_and_clean_files() {
    let report = Report { findings: Vec::new(), files_discovered: 0, discovered_files: Vec::new() };
    let overview = compute_overview(&report);
    assert_eq!(overview.summary.files_scanned, 0);
    assert_eq!(overview.summary.files_with_findings, 0);
    assert_eq!(overview.summary.total_findings, 0);
    assert!(overview.files.is_empty());
    assert!(overview.clean_files.is_empty());
}

#[test]
fn compute_overview_sorts_files_by_count_desc_then_path_asc() {
    let report = Report {
        findings: vec![
            finding("ZR001", "test_a.py", 1, 1),
            finding("ZR001", "test_b.py", 5, 1),
            finding("ZR002", "test_b.py", 10, 1),
            finding("ZR003", "test_b.py", 15, 1),
            finding("ZR001", "test_c.py", 2, 1),
            finding("ZR002", "test_c.py", 4, 1),
            finding("ZR003", "test_c.py", 6, 1),
        ],
        files_discovered: 3,
        discovered_files: paths(&["test_a.py", "test_b.py", "test_c.py"]),
    };
    let overview = compute_overview(&report);
    let ps: Vec<String> = overview.files.iter().map(|f| f.path.clone()).collect();
    assert_eq!(ps, vec!["test_b.py", "test_c.py", "test_a.py"]);
    let counts: Vec<usize> = overview.files.iter().map(|f| f.finding_count).collect();
    assert_eq!(counts, vec![3, 3, 1]);
}

#[test]
fn compute_overview_preserves_findings_order_within_each_file() {
    let report = Report {
        findings: vec![finding("ZR001", "test_a.py", 5, 9), finding("ZR002", "test_a.py", 12, 3)],
        files_discovered: 1,
        discovered_files: paths(&["test_a.py"]),
    };
    let overview = compute_overview(&report);
    let locs: Vec<(usize, usize)> =
        overview.files[0].findings.iter().map(|f| (f.line, f.column)).collect();
    assert_eq!(locs, vec![(5, 9), (12, 3)]);
}

#[test]
fn compute_overview_marks_discovered_files_without_findings_as_clean() {
    let report = Report {
        findings: vec![
            finding("ZR001", "tests/test_a.py", 1, 1),
            finding("ZR001", "tests/test_b.py", 1, 1),
        ],
        files_discovered: 4,
        discovered_files: paths(&[
            "tests/test_a.py",
            "tests/test_b.py",
            "tests/test_clean_x.py",
            "tests/test_clean_y.py",
        ]),
    };
    let overview = compute_overview(&report);
    assert_eq!(overview.summary.files_scanned, 4);
    assert_eq!(overview.summary.files_with_findings, 2);
    assert_eq!(overview.clean_files, vec!["tests/test_clean_x.py", "tests/test_clean_y.py"]);
}

#[test]
fn overview_text_with_findings_points_at_the_triage_guide() {
    let report = Report {
        findings: vec![finding("ZR001", "tests/test_a.py", 12, 5)],
        files_discovered: 1,
        discovered_files: paths(&["tests/test_a.py"]),
    };
    let text = format_overview_text(&compute_overview(&report), false);
    assert!(text.contains("zorilla guide triage"), "footer should point at the triage guide, got:\n{text}");
}

#[test]
fn overview_text_without_findings_omits_the_triage_footer() {
    let report = Report {
        findings: Vec::new(),
        files_discovered: 1,
        discovered_files: paths(&["tests/test_clean.py"]),
    };
    let text = format_overview_text(&compute_overview(&report), false);
    assert!(!text.contains("zorilla guide triage"), "a clean run has nothing to triage, got:\n{text}");
}

#[test]
fn format_overview_text_without_color_has_no_ansi_and_shows_expected_fields() {
    let report = Report {
        findings: vec![finding("ZR001", "tests/test_a.py", 12, 5)],
        files_discovered: 2,
        discovered_files: paths(&["tests/test_a.py", "tests/test_clean.py"]),
    };
    let overview = compute_overview(&report);
    let text = format_overview_text(&overview, false);
    assert!(!text.contains('\x1b'), "expected no ANSI escapes in:\n{text}");
    assert!(text.contains('\u{25CF}'), "missing bullet in:\n{text}");
    assert!(text.contains("tests/test_a.py"), "missing path in:\n{text}");
    assert!(
        text.contains("tests/test_a.py  1 finding\n"),
        "expected singular `1 finding` on per-file header, got:\n{text}",
    );
    assert!(text.contains("12:5"), "missing line:column in:\n{text}");
    assert!(text.contains("ZR001"), "missing rule code in:\n{text}");
    assert!(text.contains("conditional-test-logic"), "missing rule name in:\n{text}");
    assert!(text.contains("msg"), "missing message in:\n{text}");
    assert!(text.contains("1 clean files not shown."), "missing clean-files footer in:\n{text}");
    assert!(
        text.contains("Overview: 2 files, 1 findings in 1 files"),
        "missing overview header in:\n{text}",
    );
}

#[test]
fn format_overview_text_with_color_emits_ansi_around_bullet() {
    let report = Report {
        findings: vec![finding("ZR001", "tests/test_a.py", 1, 1)],
        files_discovered: 1,
        discovered_files: paths(&["tests/test_a.py"]),
    };
    let overview = compute_overview(&report);
    let text = format_overview_text(&overview, true);
    assert!(text.contains('\x1b'), "expected ANSI escapes in:\n{text:?}");
    assert!(text.contains("\x1b[0m"), "missing ANSI reset in:\n{text:?}");
    assert!(text.contains("\x1b[33m"), "missing yellow ANSI code in:\n{text:?}");
}

#[test]
fn format_overview_text_with_color_uses_red_for_error_severity() {
    let report = Report {
        findings: vec![Finding {
            code: "ZR099",
            message: "boom".to_string(),
            file: "tests/test_err.py".to_string(),
            line: 1,
            column: 1,
            severity: Severity::Error,
        }],
        files_discovered: 1,
        discovered_files: paths(&["tests/test_err.py"]),
    };
    let overview = compute_overview(&report);
    let text = format_overview_text(&overview, true);
    assert!(text.contains("\x1b[31m"), "missing red ANSI code in:\n{text:?}");
}

#[test]
fn format_overview_text_empty_has_no_bullets_and_no_footer() {
    let report = Report { findings: Vec::new(), files_discovered: 0, discovered_files: Vec::new() };
    let overview = compute_overview(&report);
    let text = format_overview_text(&overview, false);
    assert!(!text.contains('\u{25CF}'), "unexpected bullet in:\n{text}");
    assert!(!text.contains("clean files not shown."), "unexpected footer in:\n{text}");
    assert!(text.contains("Overview: 0 files, 0 findings in 0 files"));
}

#[test]
fn overview_files_and_counts_partition_the_findings() {
    let report = Report {
        findings: vec![
            finding("ZR001", "b.py", 1, 1),
            finding("ZR002", "a.py", 2, 1),
            finding("ZR003", "b.py", 3, 1),
        ],
        files_discovered: 3,
        discovered_files: paths(&["a.py", "b.py", "c.py"]),
    };
    let overview = compute_overview(&report);
    assert_eq!(overview.summary.total_findings, 3);
    let total: usize = overview.files.iter().map(|f| f.finding_count).sum();
    assert_eq!(total, 3);
    assert_eq!(overview.files[0].path, "b.py");
    assert_eq!(overview.files[1].path, "a.py");
    assert_eq!(overview.clean_files, vec!["c.py"]);
}
