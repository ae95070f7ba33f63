use zorilla::guide::report_footer;
use zorilla::report::{sort_findings, Finding, Report, Severity};

fn name_lookup(code: &str) -> &'static str {
    match code {
        "ZR001" => "conditional-test-logic",
        "ZR002" => "sleep-in-test",
        "ZR007" => "empty-test",
        _ => "unknown",
    }
}

fn zr001(file: &str, line: usize, column: usize, message: &str) -> Finding {
    Finding {
        code: "ZR001",
        message: message.to_string(),
        file: file.to_string(),
        line,
        column,
        severity: Severity::Warning,
    }
}

#[test]
fn summary_line_shape_is_stable() {
    let report = Report { findings: Vec::new(), files_discovered: 2, discovered_files: Vec::new() };
    assert_eq!(report.summary_line(), "0 findings in 2 files discovered.");
}

#[test]
fn zero_findings_exits_zero() {
    let report = Report::default();
    assert_eq!(report.exit_code(), 0);
}

#[test]
fn findings_exit_one() {
    let report = Report {
        findings: vec![zr001("x.py", 1, 1, "placeholder")],
        files_discovered: 1,
        discovered_files: Vec::new(),
    };
    assert_eq!(report.exit_code(), 1);
}

#[test]
fn severity_defaults_to_warning() {
    assert_eq!(Severity::default(), Severity::Warning);
}

#[test]
fn severity_as_str_maps_both_variants() {
    assert_eq!(Severity::Warning.as_str(), "warning");
    assert_eq!(Severity::Error.as_str(), "error");
}

#[test]
fn text_output_groups_by_file_and_trailing_summary() {
    let msg = "test function has conditional logic (if/for/while/try)";
    let report = Report {
        findings: vec![
            zr001("/tmp/root/tests/test_b.py", 3, 1, msg),
            zr001("/tmp/root/tests/test_a.py", 1, 1, msg),
            zr001("/tmp/root/tests/test_a.py", 5, 1, msg),
        ],
        files_discovered: 2,
        discovered_files: Vec::new(),
    };
    let out = report.render_text("/tmp/root", name_lookup);
    let expected = format!(
        "\
tests/test_a.py:1:1: ZR001 conditional-test-logic: test function has conditional logic (if/for/while/try)
tests/test_a.py:5:1: ZR001 conditional-test-logic: test function has conditional logic (if/for/while/try)
tests/test_b.py:3:1: ZR001 conditional-test-logic: test function has conditional logic (if/for/while/try)
3 findings in 2 files discovered.

{}
",
        report_footer(),
    );
    assert_eq!(out, expected);
}

#[test]
fn text_output_empty_prints_only_summary() {
    let report = Report { findings: Vec::new(), files_discovered: 0, discovered_files: Vec::new() };
    let out = report.render_text("", name_lookup);
    assert_eq!(out, "0 findings in 0 files discovered.\n");
}

#[test]
fn text_output_with_findings_points_at_the_triage_guide() {
    let report = Report {
        findings: vec![zr001("tests/test_a.py", 2, 5, "test function has conditional logic")],
        files_discovered: 1,
        discovered_files: Vec::new(),
    };
    let out = report.render_text("", name_lookup);
    assert!(out.contains("zorilla guide triage"), "footer should point at the triage guide, got:\n{out}");
}

#[test]
fn text_output_when_base_equals_file_falls_back_to_basename() {
    let report = Report {
        findings: vec![zr001(
            "/tmp/test_bug.py",
            2,
            5,
            "test function has conditional logic (if/for/while/try)",
        )],
        files_discovered: 1,
        discovered_files: Vec::new(),
    };
    let out = report.render_text("/tmp/test_bug.py", name_lookup);
    assert!(out.starts_with("test_bug.py:2:5: "), "expected leading 'test_bug.py:2:5:' in {out:?}");
}

#[test]
fn text_output_keeps_paths_outside_the_base() {
    let report = Report {
        findings: vec![zr001("/elsewhere/test_x.py", 4, 2, "m")],
        files_discovered: 1,
        discovered_files: Vec::new(),
    };
    let out = report.render_text("/tmp/root", name_lookup);
    assert!(out.starts_with("/elsewhere/test_x.py:4:2: ZR001 conditional-test-logic: m\n"), "{out:?}");
}

#[test]
fn sort_findings_orders_by_file_line_column() {
    let fs = vec![
        zr001("b.py", 1, 1, "m"),
        zr001("a.py", 9, 3, "m"),
        zr001("a.py", 9, 1, "m"),
        zr001("a.py", 2, 7, "m"),
    ];
    let sorted = sort_findings(&fs);
    let keys: Vec<(String, usize, usize)> =
        sorted.iter().map(|f| (f.file.clone(), f.line, f.column)).collect();
    assert_eq!(
        keys,
        vec![
            ("a.py".to_string(), 2, 7),
            ("a.py".to_string(), 9, 1),
            ("a.py".to_string(), 9, 3),
            ("b.py".to_string(), 1, 1),
        ]
    );
}
