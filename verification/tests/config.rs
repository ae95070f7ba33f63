use zorilla::config::{
    keys_for_code, qualified_rule_keys, rule_codes, top_level_keys, Config, DirConfig, DEFAULT_ZR004_MAX_ASSERTS,
    DEFAULT_ZR006_MAX_PATCHES, DEFAULT_ZR008_MAX_PATCHES,
};

#[test]
fn capture_reports_the_fields_toml_accepts() {
    let top = top_level_keys();
    assert!(top.contains(&"include"), "top-level keys should include `include`: {top:?}");
    assert!(top.contains(&"exclude"), "top-level keys should include `exclude`: {top:?}");
    assert!(top.contains(&"rules"), "top-level keys should include `rules`: {top:?}");
}

#[test]
fn rule_codes_come_back_renamed_to_uppercase() {
    let codes = rule_codes();
    assert!(codes.contains(&"ZR001"), "serde renames should surface: {codes:?}");
    assert!(codes.contains(&"ZR008"), "serde renames should surface: {codes:?}");
    assert!(
        !codes.iter().any(|c| c.starts_with("zr")),
        "the captured names are the TOML-facing ones, not the Rust fields: {codes:?}",
    );
}

#[test]
fn every_rule_code_has_a_key_list() {
    for code in rule_codes() {
        let keys = keys_for_code(code)
            .unwrap_or_else(|| panic!("`keys_for_code` has no arm for `{code}`"));
        assert!(
            keys.contains(&"enabled"),
            "every rule table accepts `enabled`; `{code}` reported {keys:?}",
        );
    }
    assert_eq!(keys_for_code("ZR999"), None, "an unknown code has no key list");
}

#[test]
fn qualified_rule_keys_are_scoped_to_the_rule_that_defines_them() {
    let keys = qualified_rule_keys();
    assert!(keys.iter().any(|k| k == "ZR004.max_asserts"), "qualified knob should be accepted");
    assert!(keys.iter().any(|k| k == "ZR003.extra_helpers"), "qualified knob should be accepted");
    assert!(
        !keys.iter().any(|k| k == "ZR003.max_asserts"),
        "a knob must not be accepted under a rule that does not define it",
    );
    assert!(
        !keys.iter().any(|k| k == "max_asserts"),
        "the bare form would wave through a knob written at the top level",
    );
}

#[test]
fn defaults_populate_include_and_exclude() {
    let cfg = Config::default();
    assert!(cfg.include_globs.iter().any(|g| g == "tests/**/*.py"));
    assert!(cfg.exclude.iter().any(|g| g == "**/fixtures/**"));
}

#[test]
fn rule_config_defaults_are_sane() {
    let rc = Config::default().rule_config();
    assert!(rc.disabled.is_empty());
    assert!(rc.zr003.helpers.iter().any(|h| h == "assertEqual"));
    assert!(rc.zr003.helpers.iter().any(|h| h == "fail"));
    assert_eq!(rc.zr004.max_asserts, DEFAULT_ZR004_MAX_ASSERTS);
}

#[test]
fn rule_config_defaults_zr005_allowed_prefixes_empty() {
    let rc = Config::default().rule_config();
    assert!(rc.zr005.allowed_prefixes.is_empty());
}

#[test]
fn rule_config_defaults_zr006_max_patches() {
    let rc = Config::default().rule_config();
    assert_eq!(rc.zr006.max_patches, DEFAULT_ZR006_MAX_PATCHES);
}

#[test]
fn rule_config_defaults_zr008_max_patches() {
    let rc = Config::default().rule_config();
    assert_eq!(rc.zr008.max_patches, DEFAULT_ZR008_MAX_PATCHES);
}

#[test]
fn rule_config_zr008_is_enabled_by_default() {
    // No config file => no `enabled = false` for ZR008 => not in
    // `disabled`. Mirrors how the engine treats every default-on rule.
    let rc = Config::default().rule_config();
    assert!(!rc.disabled.contains(&"ZR008"));
}

#[test]
fn discover_with_no_config_returns_defaults() {
    let cfg = Config::discover(vec![DirConfig::Neither, DirConfig::Pyproject(None)]);
    assert_eq!(cfg.include_globs, Config::default().include_globs);
}
