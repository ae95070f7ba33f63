use zorilla::report::{Finding, Report, Severity};
use zorilla::rules::all;
use zorilla::stats::{compute_stats, format_stats_text};

fn finding(code: &'static str, file: &str, line: usize) -> Finding {
    Finding {
        code,
        message: "msg".to_string(),
        file: file.to_string(),
        line,
        column: 1,
        severity: Severity::Warning,
    }
}

#[test]
fn empty_report_produces_zero_stats_with_every_rule_seeded() {
    let report = Report { findings: Vec::new(), files_discovered: 0, discovered_files: Vec::new() };
    let stats = compute_stats(&report);
    assert_eq!(stats.files_scanned, 0);
    assert_eq!(stats.files_with_findings, 0);
    assert_eq!(stats.clean_files, 0);
    assert_eq!(stats.total_findings, 0);
    for rule in all() {
        assert_eq!(
            stats.breakdown_get(rule.code()),
            Some(0),
            "missing or non-zero breakdown entry for {}",
            rule.code()
        );
    }
}

#[test]
fn compute_stats_tallies_findings_across_files_and_rules() {
    let report = Report {
        findings: vec![
            finding("ZR001", "tests/test_a.py", 2),
            finding("ZR003", "tests/test_a.py", 6),
            finding("ZR003", "tests/test_a.py", 11),
            finding("ZR002", "tests/test_b.py", 3),
        ],
        files_discovered: 3,
        discovered_files: Vec::new(),
    };
    let stats = compute_stats(&report);
    assert_eq!(stats.files_scanned, 3);
    assert_eq!(stats.files_with_findings, 2);
    assert_eq!(stats.clean_files, 1);
    assert_eq!(stats.total_findings, 4);
    assert_eq!(stats.breakdown_get("ZR001"), Some(1));
    assert_eq!(stats.breakdown_get("ZR002"), Some(1));
    assert_eq!(stats.breakdown_get("ZR003"), Some(2));
    assert_eq!(stats.breakdown_get("ZR004"), Some(0));
    assert_eq!(stats.breakdown_get("ZR007"), Some(0));
}

#[test]
fn format_stats_text_contains_expected_labels_and_rule_codes() {
    let report = Report {
        findings: vec![finding("ZR001", "tests/test_a.py", 2), finding("ZR003", "tests/test_a.py", 6)],
        files_discovered: 2,
        discovered_files: Vec::new(),
    };
    let stats = compute_stats(&report);
    let text = format_stats_text(&stats);
    assert!(text.starts_with("Scan statistics:"));
    assert!(text.contains("Files scanned:"), "missing `Files scanned:` label:\n{text}");
    assert!(text.contains("Files with findings:"), "missing `Files with findings:` label:\n{text}");
    assert!(text.contains("Clean files:"), "missing `Clean files:` label:\n{text}");
    assert!(text.contains("Total findings:"), "missing `Total findings:` label:\n{text}");
    assert!(text.contains("Breakdown by rule:"), "missing breakdown header:\n{text}");
    for rule in all() {
        assert!(text.contains(rule.code()), "missing rule code {} in output:\n{text}", rule.code());
        assert!(text.contains(rule.name()), "missing rule name {} in output:\n{text}", rule.name());
    }
}

#[test]
fn format_stats_text_numeric_column_is_aligned() {
    let report = Report {
        findings: vec![finding("ZR001", "tests/test_a.py", 2)],
        files_discovered: 10,
        discovered_files: Vec::new(),
    };
    let stats = compute_stats(&report);
    let text = format_stats_text(&stats);
    let summary_labels = ["Files scanned:", "Files with findings:", "Clean files:", "Total findings:"];
    let mut positions = Vec::new();
    for label in summary_labels {
        let line = text
            .lines()
            .find(|l| l.contains(label))
            .unwrap_or_else(|| panic!("label {label} not found in:\n{text}"));
        let idx = line.rfind(|c: char| c.is_whitespace()).unwrap();
        positions.push(idx);
    }
    let first = positions[0];
    for p in &positions[1..] {
        assert_eq!(*p, first, "misaligned numeric column in:\n{text}");
    }
}

#[test]
fn stats_counts_add_up() {
    let report = Report {
        findings: vec![finding("ZR005", "a.py", 1), finding("ZR005", "a.py", 2), finding("ZR006", "b.py", 1)],
        files_discovered: 5,
        discovered_files: Vec::new(),
    };
    let stats = compute_stats(&report);
    assert_eq!(stats.files_with_findings + stats.clean_files, stats.files_scanned);
    let sum: usize = stats.breakdown.iter().map(|(_, n)| *n).sum();
    assert_eq!(sum, stats.total_findings);
    assert_eq!(stats.breakdown_get("ZR005"), Some(2));
    assert_eq!(stats.breakdown_get("ZR999"), None);
}
