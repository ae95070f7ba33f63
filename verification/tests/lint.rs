use zorilla::changed_lines::ChangedLines;
use zorilla::config::{Config, DirConfig, RawConfig, RawRules};
use zorilla::guide::{detect, ConfigSource, DirProbe};
use zorilla::lint::{filter_changed, lint_source};
use zorilla::report::{sort_findings, Finding, Severity};

fn codes(fs: &[Finding]) -> Vec<&'static str> {
    fs.iter().map(|f| f.code).collect()
}

#[test]
fn lint_source_runs_the_enabled_rules_in_code_order() {
    let src = "\
import time

def test_a():
    if True:
        time.sleep(1)
";
    let config = Config::default().rule_config();
    let out = lint_source("tests/test_a.py", src, &config).unwrap();
    assert_eq!(codes(&out), vec!["ZR001", "ZR002", "ZR003"]);
    assert!(out.iter().all(|f| f.file == "tests/test_a.py"));
    assert_eq!((out[0].line, out[0].column), (4, 5));
    assert_eq!((out[1].line, out[1].column), (5, 9));
    assert_eq!((out[2].line, out[2].column), (3, 1));
}

#[test]
fn lint_source_respects_a_disabled_rule() {
    let src = "def test_a():\n    pass\n";
    let mut rules = RawRules::empty();
    rules.zr007.enabled = Some(false);
    let config = Config::from_raw(RawConfig { include_globs: None, exclude: None, rules }).rule_config();
    let out = lint_source("t.py", src, &config).unwrap();
    assert!(!codes(&out).contains(&"ZR007"), "{out:?}");
    assert!(codes(&out).contains(&"ZR003"), "{out:?}");
}

#[test]
fn lint_source_respects_line_and_file_directives() {
    let config = Config::default().rule_config();
    let src = "def test_a():  # zorilla: ignore[ZR003, ZR007]\n    pass\n";
    let out = lint_source("t.py", src, &config).unwrap();
    assert!(out.is_empty(), "{out:?}");
    let src = "# zorilla: ignore-file\ndef test_a():\n    pass\n";
    let out = lint_source("t.py", src, &config).unwrap();
    assert!(out.is_empty(), "{out:?}");
}

#[test]
fn lint_source_on_clean_tests_reports_nothing() {
    let config = Config::default().rule_config();
    let out = lint_source("t.py", "def test_a():\n    assert add(1, 2) == 3\n", &config).unwrap();
    assert!(out.is_empty(), "{out:?}");
    let out = lint_source("t.py", "", &config).unwrap();
    assert!(out.is_empty());
}

fn finding(file: &str, line: usize) -> Finding {
    Finding {
        code: "ZR001",
        message: "m".to_string(),
        file: file.to_string(),
        line,
        column: 1,
        severity: Severity::Warning,
    }
}

#[test]
fn filter_changed_keeps_changed_lines_and_unlisted_files() {
    let cl = ChangedLines::from_reader("tests/test_a.py:5-7\ntests/test_b.py\n").unwrap();
    let fs = vec![
        finding("tests/test_a.py", 4),
        finding("./tests/test_a.py", 6),
        finding("tests/test_b.py", 100),
        finding("tests/test_c.py", 1),
        finding("tests/test_a.py", 8),
    ];
    let kept = filter_changed(fs, &cl);
    let keys: Vec<(String, usize)> = kept.iter().map(|f| (f.file.clone(), f.line)).collect();
    assert_eq!(
        keys,
        vec![
            ("./tests/test_a.py".to_string(), 6),
            ("tests/test_b.py".to_string(), 100),
            ("tests/test_c.py".to_string(), 1),
        ]
    );
}

#[test]
fn filter_changed_with_an_empty_manifest_keeps_everything() {
    let cl = ChangedLines::from_reader("").unwrap();
    let kept = filter_changed(vec![finding("a.py", 1), finding("b.py", 2)], &cl);
    assert_eq!(kept.len(), 2);
}

#[test]
fn sorting_twice_changes_nothing() {
    let fs = vec![finding("b.py", 1), finding("a.py", 3), finding("a.py", 2)];
    let once = sort_findings(&fs);
    let twice = sort_findings(&once);
    let a: Vec<(String, usize)> = once.iter().map(|f| (f.file.clone(), f.line)).collect();
    let b: Vec<(String, usize)> = twice.iter().map(|f| (f.file.clone(), f.line)).collect();
    assert_eq!(a, b);
    assert_eq!(a[0], ("a.py".to_string(), 2));
}

fn raw_with_include(glob: &str) -> RawConfig {
    RawConfig { include_globs: Some(vec![glob.to_string()]), exclude: None, rules: RawRules::empty() }
}

#[test]
fn discover_takes_the_nearest_deciding_directory() {
    let dirs = vec![
        DirConfig::Neither,
        DirConfig::Pyproject(None),
        DirConfig::Pyproject(Some(raw_with_include("near/*.py"))),
        DirConfig::Standalone(raw_with_include("far/*.py")),
    ];
    let config = Config::discover(dirs);
    assert_eq!(config.include_globs, vec!["near/*.py".to_string()]);
}

#[test]
fn discover_prefers_nothing_over_defaults_when_no_directory_decides() {
    let config = Config::discover(vec![DirConfig::Neither, DirConfig::Pyproject(None)]);
    assert_eq!(config.include_globs, Config::default().include_globs);
    assert_eq!(config.exclude, Config::default().exclude);
}

fn probe(toml: bool, table: bool, pre_commit: bool, git: bool) -> DirProbe {
    DirProbe { has_zorilla_toml: toml, pyproject_has_table: table, pre_commit_refers: pre_commit, has_git: git }
}

#[test]
fn detect_walks_up_to_the_checkout_root() {
    assert_eq!(detect(&vec![probe(false, false, false, false), probe(false, true, false, false)]), Some(ConfigSource::PyProject));
    assert_eq!(detect(&vec![probe(false, false, false, true), probe(true, false, false, false)]), None);
    assert_eq!(detect(&vec![probe(false, false, true, true)]), Some(ConfigSource::PreCommit));
    assert_eq!(detect(&vec![probe(true, true, true, false)]), Some(ConfigSource::ZorillaToml));
    assert_eq!(detect(&Vec::new()), None);
}

#[test]
fn the_search_ends_at_a_standalone_file_or_a_pyproject_section() {
    assert!(DirConfig::Standalone(raw_with_include("a/*.py")).ends_search());
    assert!(DirConfig::Pyproject(Some(raw_with_include("a/*.py"))).ends_search());
    assert!(!DirConfig::Pyproject(None).ends_search());
    assert!(!DirConfig::Neither.ends_search());
}
