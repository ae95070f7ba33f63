use zorilla::config::{Config, DirConfig, RawConfig, RawRules};

fn standalone(rules: RawRules) -> Config {
    Config::discover(vec![DirConfig::Standalone(RawConfig { include_globs: None, exclude: None, rules })])
}

fn strings(v: &[&str]) -> Vec<String> {
    v.iter().map(|s| s.to_string()).collect()
}

#[test]
fn discover_reads_pyproject_tool_zorilla() {
    let raw = RawConfig { include_globs: Some(strings(&["custom/**/*.py"])), exclude: None, rules: RawRules::empty() };
    let cfg = Config::discover(vec![DirConfig::Pyproject(Some(raw))]);
    assert_eq!(cfg.include_globs, strings(&["custom/**/*.py"]));
    assert_eq!(cfg.exclude, Config::default().exclude);
}

#[test]
fn discover_prefers_zorilla_toml_over_pyproject() {
    let standalone_raw = RawConfig { include_globs: Some(strings(&["from_zorilla/*.py"])), exclude: None, rules: RawRules::empty() };
    let cfg = Config::discover(vec![DirConfig::Standalone(standalone_raw)]);
    assert_eq!(cfg.include_globs, strings(&["from_zorilla/*.py"]));
}

#[test]
fn pyproject_without_tool_zorilla_falls_back_to_defaults() {
    let cfg = Config::discover(vec![DirConfig::Pyproject(None)]);
    assert_eq!(cfg.include_globs, Config::default().include_globs);
}

#[test]
fn rule_config_disables_listed_rules() {
    let mut rules = RawRules::empty();
    rules.zr003.enabled = Some(false);
    rules.zr001.enabled = Some(false);
    rules.zr008.enabled = Some(false);
    let rc = standalone(rules).rule_config();
    assert!(rc.disabled.contains(&"ZR001"));
    assert!(rc.disabled.contains(&"ZR003"));
    assert!(rc.disabled.contains(&"ZR008"));
    assert!(!rc.disabled.contains(&"ZR002"));
}

#[test]
fn rule_config_merges_extra_helpers_into_zr003() {
    let mut rules = RawRules::empty();
    rules.zr003.extra_helpers = Some(strings(&["expect", "verify"]));
    let rc = standalone(rules).rule_config();
    assert!(rc.zr003.helpers.contains(&"expect".to_string()));
    assert!(rc.zr003.helpers.contains(&"verify".to_string()));
    assert!(rc.zr003.helpers.contains(&"assertEqual".to_string()));
}

#[test]
fn rule_config_reads_zr004_max_asserts() {
    let mut rules = RawRules::empty();
    rules.zr004.max_asserts = Some(2);
    assert_eq!(standalone(rules).rule_config().zr004.max_asserts, 2);
}

#[test]
fn rule_config_reads_zr005_allowed_prefixes() {
    let mut rules = RawRules::empty();
    rules.zr005.allowed_prefixes = Some(strings(&["http://localhost", "/tmp/"]));
    assert_eq!(standalone(rules).rule_config().zr005.allowed_prefixes, strings(&["http://localhost", "/tmp/"]));
}

#[test]
fn rule_config_strips_empty_zr005_allowed_prefixes() {
    let mut rules = RawRules::empty();
    rules.zr005.allowed_prefixes = Some(strings(&["", "/tmp/", ""]));
    assert_eq!(standalone(rules).rule_config().zr005.allowed_prefixes, strings(&["/tmp/"]));
}

#[test]
fn rule_config_reads_zr006_max_patches() {
    let mut rules = RawRules::empty();
    rules.zr006.max_patches = Some(5);
    assert_eq!(standalone(rules).rule_config().zr006.max_patches, 5);
}

#[test]
fn rule_config_reads_zr008_max_patches() {
    let mut rules = RawRules::empty();
    rules.zr008.max_patches = Some(5);
    assert_eq!(standalone(rules).rule_config().zr008.max_patches, 5);
}

#[test]
fn rule_config_reads_pyproject_rules_table() {
    let mut rules = RawRules::empty();
    rules.zr004.max_asserts = Some(7);
    let cfg = Config::discover(vec![DirConfig::Pyproject(Some(RawConfig { include_globs: None, exclude: None, rules }))]);
    assert_eq!(cfg.rule_config().zr004.max_asserts, 7);
}
