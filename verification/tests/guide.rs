use zorilla::config::{keys_for_code, qualified_rule_keys, top_level_keys};
use zorilla::guide::{
    embedded_invocations, header, inline_code_spans, is_zorilla_command, lines_with_fence, render, report_footer,
    ConfigSource, Selection, Topic,
};
use zorilla::rules::{all, find};

/// No topic may exceed this many lines: a guide that grows past a screenful
/// stops being read.
const LINE_CAP: usize = 60;

#[derive(Debug, PartialEq, Eq)]
struct TomlEntry {
    table: String,
    key: String,
}

fn fenced_toml_entries(text: &str) -> Vec<TomlEntry> {
    let mut out = Vec::new();
    let mut table = String::new();
    let mut previous_fence: Option<String> = None;
    for (line, fence) in lines_with_fence(text) {
        if fence != previous_fence {
            table.clear();
            previous_fence = fence.clone();
        }
        if fence.as_deref() != Some("toml") {
            continue;
        }
        let trimmed = line.trim();
        if let Some(header) = trimmed.strip_prefix('[').and_then(|s| s.strip_suffix(']')) {
            table = header.to_owned();
            continue;
        }
        if let Some((key, _)) = trimmed.split_once('=') {
            let key = key.trim();
            if !key.is_empty() {
                out.push(TomlEntry { table: table.clone(), key: key.to_owned() });
            }
        }
    }
    out
}

#[derive(Debug, PartialEq, Eq)]
enum FenceScope {
    TopLevel,
    Rule(String),
}

fn zorilla_scope(entry: &TomlEntry) -> Option<FenceScope> {
    let table = entry.table.strip_prefix("tool.").unwrap_or(&entry.table);
    let rest = table.strip_prefix("zorilla")?;
    let rest = rest.strip_prefix('.').unwrap_or(rest);
    if rest.is_empty() {
        return Some(FenceScope::TopLevel);
    }
    rest.strip_prefix("rules.").map(|code| FenceScope::Rule(code.to_owned()))
}

fn rule_codes_mentioned(text: &str) -> Vec<String> {
    text.as_bytes()
        .windows(5)
        .filter_map(|w| std::str::from_utf8(w).ok())
        .filter(|w| looks_like_rule_code(w))
        .map(str::to_owned)
        .collect()
}

fn looks_like_rule_code(s: &str) -> bool {
    s.len() == 5 && s.starts_with("ZR") && s[2..].bytes().all(|b| b.is_ascii_digit())
}

#[test]
fn every_topic_fits_the_line_cap() {
    for topic in Topic::all() {
        let lines = topic.text().trim_end().lines().count();
        assert!(
            lines <= LINE_CAP,
            "guide `{}` is {lines} lines, cap is {LINE_CAP}; cut it rather than raising \
                 the cap",
            topic.name(),
        );
    }
}

#[test]
fn every_topic_is_plain_ascii() {
    for topic in Topic::all() {
        let offender = topic.text().chars().find(|c| !c.is_ascii());
        assert!(
            offender.is_none(),
            "guide `{}` contains the non-ASCII character {offender:?}; guides are piped \
                 and captured, so they stay ASCII",
            topic.name(),
        );
    }
}

#[test]
fn every_topic_ends_with_a_single_next_line() {
    for topic in Topic::all() {
        let trimmed = topic.text().trim_end();
        let last = trimmed.lines().next_back().expect("guide should not be empty");
        assert!(
            last.starts_with("next: run "),
            "guide `{}` must end with a `next: run` line, ends with {last:?}",
            topic.name(),
        );
        let count = trimmed.lines().filter(|l| l.starts_with("next: run ")).count();
        assert_eq!(count, 1, "guide `{}` should have exactly one next line", topic.name());
        // The next line is the command an agent is likeliest to run, so it
        // has to be backticked: that is what puts it through
        // `inline_code_spans` and on to the clap check in the binary. A
        // bare `next: run zorilla fix --all` would otherwise ship green.
        assert!(
            inline_code_spans(last).iter().any(|span| is_zorilla_command(span)),
            "guide `{}` next line must quote its command in backticks so it is \
                 checked; got {last:?}",
            topic.name(),
        );
    }
}

#[test]
fn triage_states_the_prohibitions_verbatim() {
    let text = Topic::Triage.text();
    for phrase in [
        "Do not add `# zorilla: ignore` without a reason.",
        "Do not suppress a finding to pass a gate.",
        "Do not weaken an assertion to satisfy a rule.",
    ] {
        assert!(text.contains(phrase), "triage guide should contain {phrase:?}");
    }
}

#[test]
fn triage_names_every_rule_the_linter_ships() {
    // The ladder is the only place an agent is told what to *do* about a
    // code. A rule that ships without an entry leaves the agent guessing.
    let text = Topic::Triage.text();
    for rule in all() {
        assert!(
            text.contains(rule.code()),
            "triage guide has no remedy for `{}` ({})",
            rule.code(),
            rule.name(),
        );
        assert!(
            text.contains(rule.name()),
            "triage guide names `{}` but not `{}`; a registry rename would drift silently",
            rule.code(),
            rule.name(),
        );
    }
}

#[test]
fn setup_pins_the_current_release() {
    // The `rev:` in the pre-commit block is copy-pasted verbatim by whoever
    // reads this guide, so a stale pin silently holds them on an old
    // release. Bump it with the version.
    let expected = "rev: v0.2.0";
    assert!(Topic::Setup.text().contains(expected), "setup guide should pin `{expected}`",);
}

#[test]
fn setup_recommends_the_dev_dependency_over_uvx() {
    let text = Topic::Setup.text();
    assert!(text.contains("uv add --dev zorilla"), "setup should show the dev dependency");
    assert!(text.contains("Prefer the dev"), "setup should recommend it over uvx");
}

#[test]
fn setup_states_which_subcommand_gates() {
    // `stats` and `overview` always exit 0. Wiring either into a gate
    // produces a gate that can never fail, which is worse than no gate.
    // Matched on whitespace-normalised text: the guide sits under a line
    // cap, so reflowing this paragraph is a normal edit and must not fail
    // the test for a cosmetic reason.
    let text = Topic::Setup.text().split_whitespace().collect::<Vec<_>>().join(" ");
    assert!(
        text.contains("`stats` and `overview` always exit 0"),
        "setup should say the report subcommands never fail a gate",
    );
}

#[test]
fn setup_wires_zorilla_into_madoqua_and_says_a_path_list_is_valid() {
    // The guide must say what a trailing file list does, or a hook gets
    // configured with `pass_files = false` blind.
    let text = Topic::Setup.text().split_whitespace().collect::<Vec<_>>().join(" ");
    assert!(text.contains("[tool.madoqua]"), "setup should show the madoqua step");
    assert!(
        text.contains("`zorilla check tests a.py b.py` lints the directory and both files"),
        "setup should say a mixed path list is valid",
    );
}

#[test]
fn tune_documents_the_reason_syntax_and_precedence() {
    let text = Topic::Tune.text();
    assert!(text.contains("# zorilla: ignore -- <reason>"), "tune should show the reason form",);
    assert!(
        text.contains("`zorilla.toml` > `pyproject.toml [tool.zorilla]`"),
        "tune should state precedence",
    );
}

#[test]
fn tune_documents_the_strict_same_line_rule() {
    // Readers arrive expecting other linters' "applies to the next line"
    // semantics. `Suppressions` does not implement that, so the guide has to
    // say so or every suppression it prompts lands one line too high.
    assert!(
        Topic::Tune.text().contains("on that same line"),
        "tune should state the strict same-line rule",
    );
}

#[test]
fn extraction_finds_every_command_the_guides_show() {
    let setup = embedded_invocations(Topic::Setup);
    assert!(
        setup.contains(&vec!["zorilla".to_owned(), "check".to_owned(), ".".to_owned()]),
        "setup shows `zorilla check .`, extraction returned {setup:?}",
    );
    assert!(
        setup.iter().any(|argv| argv.contains(&"--files-from".to_owned())),
        "the piped `git diff | zorilla check --files-from -` segment should be extracted",
    );
    let triage = embedded_invocations(Topic::Triage);
    assert!(
        triage.contains(&vec![
            "zorilla".to_owned(),
            "check".to_owned(),
            "tests/test_orders.py".to_owned(),
        ]),
        "the re-check recipe lives in a bash fence and should be extracted; got {triage:?}",
    );
    for topic in Topic::all() {
        let found = embedded_invocations(topic);
        assert!(!found.is_empty(), "guide `{}` shows no commands at all", topic.name());
        for argv in &found {
            assert_eq!(argv.first().map(String::as_str), Some("zorilla"), "argv is {argv:?}");
        }
    }
}

#[test]
fn extraction_does_not_mistake_the_config_file_for_a_command() {
    // `zorilla.toml` is named in every guide. Fed to clap it would be an
    // unknown subcommand, so the "every command parses" test would fail on
    // prose that is perfectly correct.
    for topic in Topic::all() {
        for argv in embedded_invocations(topic) {
            assert!(
                !argv.iter().any(|token| token.contains(".toml")),
                "guide `{}` yielded {argv:?}, which is a filename, not a command",
                topic.name(),
            );
        }
    }
}

#[test]
fn every_rule_code_in_the_guides_is_registered() {
    let mut checked = 0_usize;
    for topic in Topic::all() {
        for code in rule_codes_mentioned(topic.text()) {
            checked += 1;
            assert!(
                find(&code).is_some(),
                "guide `{}` names rule `{code}`, which is not registered",
                topic.name(),
            );
        }
    }
    assert!(checked >= 8, "expected the guides to name several rules, found {checked}");
}

#[test]
fn every_qualified_config_key_in_the_guides_exists() {
    let accepted = qualified_rule_keys();
    let mut checked = 0_usize;
    for topic in Topic::all() {
        for span in inline_code_spans(topic.text()) {
            let Some((code, key)) = span.split_once('.') else { continue };
            if !looks_like_rule_code(code) {
                continue;
            }
            checked += 1;
            assert!(
                accepted.contains(&span),
                "guide `{}` names `{code}.{key}`, which the config deserializer does not \
                     accept under that rule",
                topic.name(),
            );
        }
    }
    assert!(
        checked >= 5,
        "expected the guides to name several per-rule knobs as `CODE.key`, found {checked}",
    );
}

#[test]
fn every_config_key_in_a_toml_fence_exists() {
    let mut checked = 0_usize;
    for topic in Topic::all() {
        for entry in fenced_toml_entries(topic.text()) {
            let Some(scope) = zorilla_scope(&entry) else { continue };
            checked += 1;
            let accepted = match &scope {
                // Checked against the exact table the key sits in, not
                // against one flat set: `max_asserts` is a real key, and a
                // flat set would accept it under `[tool.zorilla]`, where
                // zorilla parses and discards it.
                FenceScope::TopLevel => top_level_keys().contains(&entry.key.as_str()),
                FenceScope::Rule(code) => keys_for_code(code)
                    .is_some_and(|fields| fields.contains(&entry.key.as_str())),
            };
            assert!(
                accepted,
                "guide `{}` shows `{}` under `[{}]`, which the config deserializer does \
                     not accept there",
                topic.name(),
                entry.key,
                entry.table,
            );
        }
    }
    assert!(
        checked >= 4,
        "expected the guides' toml examples to set several keys, found {checked}",
    );
}

#[test]
fn explicit_header_omits_the_arrow() {
    assert_eq!(header(Topic::Tune, Selection::Explicit), "# zorilla guide: tune");
    assert_eq!(header(Topic::Setup, Selection::Explicit), "# zorilla guide: setup");
}

#[test]
fn auto_header_names_the_reason() {
    assert_eq!(
        header(Topic::Setup, Selection::Auto(None)),
        "# zorilla guide: not configured here -> setup"
    );
    assert_eq!(
        header(Topic::Triage, Selection::Auto(Some(ConfigSource::PyProject))),
        "# zorilla guide: configured via pyproject.toml [tool.zorilla] -> triage"
    );
    assert_eq!(
        header(Topic::Triage, Selection::Auto(Some(ConfigSource::ZorillaToml))),
        "# zorilla guide: configured via zorilla.toml -> triage"
    );
    assert_eq!(
        header(Topic::Triage, Selection::Auto(Some(ConfigSource::PreCommit))),
        "# zorilla guide: configured via .pre-commit-config.yaml -> triage"
    );
}

#[test]
fn render_is_the_header_then_the_docs_page_verbatim() {
    let rendered = render(Topic::Triage, Selection::Explicit);
    let expected = format!("# zorilla guide: triage\n\n{}", Topic::Triage.text());
    assert_eq!(rendered, expected);
    assert!(
        rendered.ends_with(Topic::Triage.text()),
        "the CLI must emit the docs page byte for byte",
    );
}

#[test]
fn footer_points_at_the_triage_guide_and_the_reason_syntax() {
    let footer = report_footer();
    assert!(
        footer.contains("zorilla guide triage"),
        "the footer is the only path from a failed gate to the guide",
    );
    assert!(footer.contains("# zorilla: ignore"), "the footer shows the inline directive");
    assert!(!footer.contains('\n'), "the footer is one line; callers add the newline");
    assert!(footer.is_ascii(), "the footer is piped and captured, so it stays ASCII");
}
