use zorilla::guide::{
    auto_topic, detect, pre_commit_references_zorilla, pyproject_has_zorilla_table, ConfigSource, DirProbe, Topic,
};

/// A directory as detection sees it: whether it has a `zorilla.toml`, the text of
/// its `pyproject.toml` and `.pre-commit-config.yaml` when it has them, and
/// whether it is a checkout root.
fn dir(zorilla_toml: bool, pyproject: Option<&str>, pre_commit: Option<&str>, git: bool) -> DirProbe {
    DirProbe {
        has_zorilla_toml: zorilla_toml,
        pyproject_has_table: pyproject.is_some_and(pyproject_has_zorilla_table),
        pre_commit_refers: pre_commit.is_some_and(pre_commit_references_zorilla),
        has_git: git,
    }
}

fn plain() -> DirProbe {
    dir(false, None, None, false)
}

#[test]
fn empty_directory_is_not_configured() {
    let dirs = vec![plain()];
    assert_eq!(detect(&dirs), None);
    assert_eq!(auto_topic(detect(&dirs)), Topic::Setup);
}

#[test]
fn zorilla_toml_is_configured() {
    let dirs = vec![dir(true, None, None, false)];
    assert_eq!(detect(&dirs), Some(ConfigSource::ZorillaToml));
    assert_eq!(auto_topic(detect(&dirs)), Topic::Triage);
}

#[test]
fn pyproject_with_tool_zorilla_is_configured() {
    let dirs = vec![dir(false, Some("[project]\nname = \"x\"\n\n[tool.zorilla.rules]\n"), None, false)];
    assert_eq!(detect(&dirs), Some(ConfigSource::PyProject));
}

#[test]
fn config_above_the_start_directory_is_configured() {
    let dirs = vec![plain(), plain(), dir(false, Some("[tool.zorilla]\n"), None, false)];
    assert_eq!(detect(&dirs), Some(ConfigSource::PyProject));
    assert_eq!(auto_topic(detect(&dirs)), Topic::Triage);
}

#[test]
fn the_walk_stops_at_the_repository_root() {
    let dirs = vec![dir(false, None, None, true), dir(true, None, None, false)];
    assert_eq!(detect(&dirs), None);
}

#[test]
fn pyproject_without_tool_zorilla_is_not_configured() {
    let dirs = vec![dir(false, Some("[project]\nname = \"x\"\n\n[tool.ruff]\n"), None, false)];
    assert_eq!(detect(&dirs), None);
}

#[test]
fn pyproject_mentioning_zorilla_in_a_string_is_not_configured() {
    let dirs = vec![dir(false, Some("[project]\ndependencies = [\"tool.zorilla\"]\n"), None, false)];
    assert_eq!(detect(&dirs), None, "detection parses the TOML, so a mention in a string is not a config table");
}

#[test]
fn unparseable_pyproject_is_not_configured() {
    let dirs = vec![dir(false, Some("[project\nname = \n"), None, false)];
    assert_eq!(detect(&dirs), None);
}

#[test]
fn pre_commit_repo_reference_is_configured() {
    let text = "repos:\n  - repo: https://github.com/mojzis/zorilla\n    rev: v0.1.4\n    hooks:\n      - id: zorilla\n";
    assert_eq!(detect(&vec![dir(false, None, Some(text), false)]), Some(ConfigSource::PreCommit));
}

#[test]
fn pre_commit_local_hook_id_is_configured() {
    let text = "repos:\n  - repo: local\n    hooks:\n      - id: zorilla\n        entry: zorilla check\n";
    assert_eq!(detect(&vec![dir(false, None, Some(text), false)]), Some(ConfigSource::PreCommit));
}

#[test]
fn pre_commit_without_zorilla_is_not_configured() {
    let text = "repos:\n  - repo: local\n    hooks:\n      - id: ruff\n";
    assert_eq!(detect(&vec![dir(false, None, Some(text), false)]), None);
}

#[test]
fn pre_commit_mention_in_a_comment_is_not_configured() {
    let text = "repos: []\n# consider mojzis/zorilla one day\n";
    assert_eq!(detect(&vec![dir(false, None, Some(text), false)]), None);
}

#[test]
fn config_file_wins_over_pyproject_and_pre_commit() {
    let dirs = vec![dir(
        true,
        Some("[tool.zorilla]\n"),
        Some("repos:\n  - repo: https://github.com/mojzis/zorilla\n"),
        false,
    )];
    assert_eq!(detect(&dirs), Some(ConfigSource::ZorillaToml));
}

#[test]
fn pyproject_wins_over_pre_commit() {
    let dirs =
        vec![dir(false, Some("[tool.zorilla]\n"), Some("repos:\n  - repo: https://github.com/mojzis/zorilla\n"), false)];
    assert_eq!(detect(&dirs), Some(ConfigSource::PyProject));
}
