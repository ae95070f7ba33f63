use zorilla::config::{Config, RawConfig, RawRules};
use zorilla::discovery::{discover, DiscoveryError, InputPath};

fn dir(root: &str, entries: &[&str]) -> InputPath {
    InputPath::Dir {
        root: root.to_string(),
        entries: entries.iter().map(|e| format!("{root}/{e}")).collect(),
        walk_error: None,
    }
}

fn file_name(p: &str) -> &str {
    p.rsplit('/').next().unwrap()
}

#[test]
fn discovers_test_files_in_directory() {
    let cfg = Config::default();
    let files = discover(&vec![dir("/tmp/x", &["tests/test_one.py", "tests/test_two.py", "src/app.py"])], &cfg).unwrap();
    let names: Vec<&str> = files.iter().map(|p| file_name(p)).collect();
    assert!(names.contains(&"test_one.py"));
    assert!(names.contains(&"test_two.py"));
    assert!(!names.contains(&"app.py"));
}

#[test]
fn exclude_filters_fixtures_directory() {
    let cfg = Config::default();
    let files =
        discover(&vec![dir("/tmp/x", &["tests/test_real.py", "tests/fixtures/test_fixture.py"])], &cfg).unwrap();
    let names: Vec<&str> = files.iter().map(|p| file_name(p)).collect();
    assert!(names.contains(&"test_real.py"));
    assert!(!names.contains(&"test_fixture.py"));
}

#[test]
fn file_argument_is_kept_when_pattern_matches() {
    let cfg = Config::default();
    let files = discover(&vec![InputPath::File("/tmp/x/test_direct.py".to_string())], &cfg).unwrap();
    assert_eq!(files.len(), 1);
}

#[test]
fn explicit_file_argument_bypasses_include_globs() {
    let cfg = Config::default();
    let file = "/tmp/x/not_a_test.py".to_string();
    let files = discover(&vec![InputPath::File(file.clone())], &cfg).unwrap();
    assert_eq!(files, vec![file]);
}

#[test]
fn explicit_file_argument_still_honors_exclude() {
    let cfg = Config::default();
    let files = discover(&vec![InputPath::File("/tmp/x/fixtures/test_excluded.py".to_string())], &cfg).unwrap();
    assert!(files.is_empty(), "exclude must still apply to explicit file paths");
}

#[test]
fn non_existent_path_is_skipped_silently() {
    let cfg = Config::default();
    let files = discover(&vec![InputPath::Missing], &cfg).unwrap();
    assert!(files.is_empty());
}

#[test]
fn each_path_is_kept_once_where_first_seen() {
    let cfg = Config::default();
    let inputs = vec![
        InputPath::File("tests/test_b.py".to_string()),
        dir("tests", &["test_a.py", "test_b.py"]),
        InputPath::File("tests/./test_a.py".to_string()),
    ];
    let files = discover(&inputs, &cfg).unwrap();
    assert_eq!(files, vec!["tests/test_b.py".to_string(), "tests/test_a.py".to_string()]);
}

#[test]
fn a_bad_glob_fails_before_anything_is_walked() {
    let raw = RawConfig { include_globs: Some(vec!["tests/[".to_string()]), exclude: None, rules: RawRules::empty() };
    let cfg = Config::from_raw(raw);
    let err = discover(&vec![InputPath::Missing], &cfg).unwrap_err();
    match err {
        DiscoveryError::Glob { pattern, message } => {
            assert_eq!(pattern, "tests/[");
            assert!(message.contains("tests/["), "{message}");
        }
        other => panic!("expected a glob error, got {other:?}"),
    }
}

#[test]
fn a_failed_walk_fails_the_run() {
    let cfg = Config::default();
    let inputs = vec![
        dir("a", &["test_x.py"]),
        InputPath::Dir { root: "b".to_string(), entries: Vec::new(), walk_error: Some("denied".to_string()) },
    ];
    match discover(&inputs, &cfg).unwrap_err() {
        DiscoveryError::Walk { path, message } => {
            assert_eq!(path, "b");
            assert_eq!(message, "denied");
        }
        other => panic!("expected a walk error, got {other:?}"),
    }
}

#[test]
fn exclude_globs_are_checked_after_include_globs() {
    let raw = RawConfig {
        include_globs: Some(vec!["tests/[".to_string()]),
        exclude: Some(vec!["fixtures/{".to_string()]),
        rules: RawRules::empty(),
    };
    match discover(&vec![InputPath::Missing], &Config::from_raw(raw)).unwrap_err() {
        DiscoveryError::Glob { pattern, .. } => assert_eq!(pattern, "tests/["),
        other => panic!("expected a glob error, got {other:?}"),
    }
    let raw = RawConfig { include_globs: None, exclude: Some(vec!["fixtures/{".to_string()]), rules: RawRules::empty() };
    match discover(&vec![InputPath::Missing], &Config::from_raw(raw)).unwrap_err() {
        DiscoveryError::Glob { pattern, .. } => assert_eq!(pattern, "fixtures/{"),
        other => panic!("expected a glob error, got {other:?}"),
    }
}
