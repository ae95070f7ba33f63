use zorilla::cli::{explain, parse_files_from_line, rules_table};
use zorilla::guide::{render, Selection, Topic};
use zorilla::rules::{all, find, rule_name_for};

#[test]
fn every_rule_has_nonempty_doc_starting_with_its_own_zr_heading() {
    for rule in all() {
        let doc = rule.doc();
        assert!(!doc.is_empty(), "{} doc is empty", rule.code());
        let expected_prefix = format!("# {}", rule.code());
        assert!(
            doc.starts_with(&expected_prefix),
            "{} doc must start with `{}`, got: {:?}",
            rule.code(),
            expected_prefix,
            &doc[..doc.len().min(40)],
        );
    }
}

#[test]
fn explicit_topic_renders_that_topic_and_no_arrow() {
    let out = render(Topic::Tune, Selection::Explicit);
    assert!(out.starts_with("# zorilla guide: tune\n"), "got: {out}");
    assert!(out.ends_with(Topic::Tune.text()), "the docs page is emitted verbatim");
}

#[test]
fn explain_accepts_lowercase_rule_code() {
    let upper = explain("ZR001").expect("ZR001 is a known rule");
    let lower = explain("zr001").expect("lowercase codes are accepted");
    assert_eq!(upper, lower);
}

#[test]
fn explain_unknown_code_is_none() {
    assert!(explain("ZR999").is_none());
    assert!(explain("").is_none());
}

#[test]
fn explain_zr001_is_its_doc() {
    let text = explain("Zr001").unwrap();
    assert_eq!(text, find("ZR001").unwrap().doc());
    assert!(text.contains("conditional"), "missing 'conditional' in:\n{text}");
}

#[test]
fn rule_name_for_known_code_works() {
    assert_eq!(rule_name_for("ZR001"), "conditional-test-logic");
    assert_eq!(rule_name_for("ZR002"), "sleep-in-test");
    assert_eq!(rule_name_for("ZR007"), "empty-test");
    assert_eq!(rule_name_for("ZRwhatever"), "unknown");
}

#[test]
fn list_rules_lists_every_rule() {
    let table = rules_table();
    assert!(table.starts_with("CODE  NAME                      DEFAULT\n"), "{table:?}");
    assert_eq!(table.lines().count(), 1 + all().len());
    for rule in all() {
        assert!(table.contains(rule.code()));
        assert!(table.contains(rule.name()));
    }
    assert!(table.contains("ZR001 conditional-test-logic    on\n"), "{table:?}");
}

#[test]
fn files_from_lines_skip_blanks_and_comments() {
    assert_eq!(parse_files_from_line("  tests/test_a.py  "), Some("tests/test_a.py".to_string()));
    assert_eq!(parse_files_from_line("tests/test_b.py\r"), Some("tests/test_b.py".to_string()));
    assert_eq!(parse_files_from_line(""), None);
    assert_eq!(parse_files_from_line("   "), None);
    assert_eq!(parse_files_from_line("# a comment"), None);
    assert_eq!(parse_files_from_line("  # indented comment"), None);
}
