use zorilla::records::{finding_records, result_records, rule_records};
use zorilla::report::{Finding, Report, Severity};

fn finding(code: &'static str, message: &str, file: &str, line: usize, column: usize) -> Finding {
    Finding { code, message: message.to_string(), file: file.to_string(), line, column, severity: Severity::Warning }
}

#[test]
fn json_output_has_one_object_per_finding_and_shares_text_paths() {
    let report = Report {
        findings: vec![
            finding("ZR001", "test function has conditional logic", "/tmp/root/tests/test_a.py", 3, 5),
            finding("ZR002", "sleep in test", "/tmp/root/tests/test_b.py", 7, 9),
        ],
        files_discovered: 2,
        discovered_files: Vec::new(),
    };
    let arr = finding_records(&report, "/tmp/root");
    assert_eq!(arr.len(), 2);
    assert_eq!(arr[0].code, "ZR001");
    assert_eq!(arr[0].file, "tests/test_a.py");
    assert_eq!(arr[0].line, 3);
    assert_eq!(arr[0].column, 5);
    assert_eq!(arr[0].severity, "warning");
    assert_eq!(arr[1].code, "ZR002");
    assert_eq!(arr[1].file, "tests/test_b.py");
}

#[test]
fn json_output_empty_is_empty_array() {
    let report = Report { findings: Vec::new(), files_discovered: 0, discovered_files: Vec::new() };
    assert!(finding_records(&report, "").is_empty());
}

#[test]
fn sarif_output_has_expected_shape() {
    let report = Report {
        findings: vec![finding("ZR001", "test function has conditional logic", "/tmp/root/tests/test_a.py", 3, 5)],
        files_discovered: 1,
        discovered_files: Vec::new(),
    };
    let results = result_records(&report, "/tmp/root");
    assert_eq!(results.len(), 1);
    assert_eq!(results[0].finding.code, "ZR001");
    assert_eq!(results[0].rule_index, Some(0));
    assert_eq!(results[0].finding.severity, "warning");
    assert_eq!(results[0].finding.message, "test function has conditional logic");
    assert_eq!(results[0].finding.file, "tests/test_a.py");
    assert_eq!(results[0].finding.line, 3);
    assert_eq!(results[0].finding.column, 5);
}

#[test]
fn sarif_driver_rules_lists_every_registered_rule() {
    let rules = rule_records();
    let codes: Vec<&str> = rules.iter().map(|r| r.id).collect();
    assert_eq!(codes, vec!["ZR001", "ZR002", "ZR003", "ZR004", "ZR005", "ZR006", "ZR007", "ZR008"]);
    for r in &rules {
        assert!(!r.name.is_empty());
        assert!(r.description.starts_with("# ZR"), "fullDescription must be the embedded doc, got: {:.40}", r.description);
    }
}

#[test]
fn sarif_result_rule_index_is_elided_for_unknown_codes() {
    let report = Report {
        findings: vec![finding("ZR999", "synthetic", "/tmp/root/tests/test_a.py", 1, 1)],
        files_discovered: 1,
        discovered_files: Vec::new(),
    };
    let results = result_records(&report, "/tmp/root");
    assert_eq!(results[0].finding.code, "ZR999");
    assert!(results[0].rule_index.is_none(), "ruleIndex should be elided for unknown codes");
}

#[test]
fn sarif_output_empty_has_no_results() {
    let report = Report { findings: Vec::new(), files_discovered: 0, discovered_files: Vec::new() };
    assert!(result_records(&report, "").is_empty());
}

#[test]
fn error_severity_is_rendered_as_error() {
    let mut f = finding("ZR007", "boom", "a.py", 2, 1);
    f.severity = Severity::Error;
    let report = Report { findings: vec![f], files_discovered: 1, discovered_files: Vec::new() };
    assert_eq!(finding_records(&report, "")[0].severity, "error");
    let r = result_records(&report, "");
    assert_eq!(r[0].finding.severity, "error");
    assert_eq!(r[0].rule_index, Some(6));
}
