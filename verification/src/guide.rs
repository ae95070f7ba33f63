//! The guides printed by `zorilla guide`: setup, triage and tune, plus the helpers
//! that pick a topic, frame it with a header, and pull the zorilla invocations a
//! guide shows out of its text.
use vstd::prelude::*;
use crate::text::{
    contains_seq, first_index_of, is_ws, lines, lines_of, split_on, starts_with, trim, trim_start,
    words,
};

verus! {

/// Instructions for a repository that has no zorilla configuration yet.
pub const SETUP: &'static str = "# Setup

zorilla is not configured in this repository yet. Run everything below at the
repository root, in this order.

**1. Install.** Add it as a dev dependency: `uv add --dev zorilla`.
Alternatives: `pip install zorilla`, or `uvx zorilla check .` for a one-off
look. Prefer the dev dependency; `uvx` on every run pins no version.

**2. Configure.** The defaults already find pytest's idiomatic layouts and skip
fixture trees. Keep them until you have a clean baseline. Setting either glob
*replaces* the default list rather than extending it, so write out every pattern
you want, in `pyproject.toml`:

```toml
[tool.zorilla]
include = [\"tests/**/*.py\", \"**/test_*.py\", \"**/*_test.py\", \"**/conftest.py\"]
exclude = [\"**/fixtures/**\", \"**/vendor/**\"]
```

A `zorilla.toml` at the root is the alternative; it wins over `pyproject.toml`.
Leave the per-rule knobs alone until you have numbers: `zorilla guide tune`.

**3. Baseline before you gate.** Run `zorilla check .` and resolve or suppress
every finding it reports before wiring zorilla into any gate; run
`zorilla guide triage` for how. `zorilla overview .` shows which files carry the
weight, and `zorilla stats .` shows which rules do. Adding a linter to a dirty
repository's gate gets the linter removed, not the smells.

**4. Integrate.** Add `zorilla check .` to the check aggregator this repository
already has - poethepoet, `just`, `make`, `nox`: one recipe, one command. It
runs the full tree and has no diff context. `check` exits 1 on findings, 0
when clean and 2 when zorilla could not run. `stats` and `overview` always
exit 0, so gate on `check` and nothing else.

For a commit hook, as a madoqua step in `pyproject.toml`:

```toml
[tool.madoqua]
extend_check = [{ name = \"zorilla\", cmd = \"zorilla check\" }]
```

madoqua appends the staged Python files, so the step lints exactly those.
Any path list is valid - `zorilla check tests a.py b.py` lints the directory
and both files - and named paths bypass `include`, though `exclude` still
applies. With pre-commit or prek the framework passes the staged files the
same way:

```yaml
- repo: https://github.com/mojzis/zorilla
  rev: v0.2.0
  hooks:
    - id: zorilla
```

Do not hand-roll a `git diff | zorilla check --files-from -` hook: an empty
list is indistinguishable from no argument, and zorilla falls back to
scanning the whole tree.

next: run `zorilla check .`
";

/// Instructions for turning a check run's findings into edits.
pub const TRIAGE: &'static str = "# Triage

A check run reported findings. Work them one at a time.

**Read the finding.** The shape is `path:line:col: CODE name: message`; line and
column are 1-indexed. `zorilla explain ZR003` prints the long-form rule
documentation, with examples of what does and does not fire.

**Apply the remedy ladder.** Take the first entry that matches the code you are
holding; the order is roughly cheapest fix first.

1. ZR007 empty-test: the body is `pass`, `...` or a docstring. Write the test or
   delete it. An empty test is a false green, not a placeholder.
2. ZR003 no-assertion: add the assertion the test is missing. If the call under
   test *is* the assertion because it raises on failure, say so with
   `pytest.raises`; if it is a project-local assertion helper, register its name
   in `ZR003.extra_helpers` rather than editing the test.
3. ZR002 sleep-in-test: wait on the condition the test is actually waiting for,
   or inject a fake clock. A sleep is flake, wasted wall-clock, or both.
4. ZR001 conditional-test-logic: a branch means the test does not know what it
   asserts. A loop over cases becomes `@pytest.mark.parametrize`; an `if` over
   environments becomes two tests or a skip marker; a `try`/`except` becomes
   `pytest.raises`.
5. ZR004 assertion-roulette: give the bare asserts messages, or split the test
   so each one has a single subject. A failure should name itself.
6. ZR006 patch-stack and ZR008 context-patch-stack: too much mocking for one
   test. Extract a seam and build a fake once, or move the setup into a
   fixture.
7. ZR005 mystery-guest: replace the path or URL with `tmp_path`, a fixture, or a
   local double. If the literal is genuinely local and safe, add its prefix to
   `ZR005.allowed_prefixes`.
8. The smell is deliberate, and only then: suppress it with
   `# zorilla: ignore[ZR001] -- <reason>` on the offending line. The reason is
   required, and the bracketed code keeps the suppression narrow.

**Around every edit.** Run the test suite before you touch anything. Refactor.
Run the test suite again. Then re-check the file you edited, by name:

```bash
zorilla check tests/test_orders.py
```

A named file is linted directly, so the answer comes back in milliseconds
instead of a whole-tree scan. The finding must be gone and no new finding may
appear. If either fails, revert the edit.

**Do not:**

- Do not raise `ZR004.max_asserts` or `ZR006.max_patches`, and do not set
  `enabled = false`, to make a finding disappear. Those are repository-wide
  policy, decided by humans, and changing one hides every other finding it
  covers. See `zorilla guide tune`.
- Do not add `# zorilla: ignore` without a reason.
- Do not suppress a finding to pass a gate.
- Do not weaken an assertion to satisfy a rule.

next: run `zorilla check` on the file you edited
";

/// Reference for suppression, scope and the per-rule knobs.
pub const TUNE: &'static str = "# Tune

Reference for suppression and policy. Every knob here is repository-wide:
changing one changes what zorilla reports everywhere, so change it deliberately.

**Suppression.** Directives are `# zorilla:` comments. Text after the directive
is your reason and is ignored by the parser, so always write one.

- `# zorilla: ignore -- <reason>` drops every finding **on that same line**.
  Strictly that line: a directive above a statement does not reach it.
- `# zorilla: ignore[ZR001, ZR003] -- <reason>` drops only the listed codes on
  that line. Prefer it; a bare `ignore` also hides the next rule to fire there.
- `# zorilla: ignore-file -- <reason>` drops everything in the file, from
  anywhere in it. `# zorilla: ignore-file[ZR005]` narrows it to the listed codes.
- Codes are case-insensitive. An unrecognised directive is silently an ordinary
  comment, so check it against `zorilla list-rules`.
- The parser locks onto the first `#` on a line without reasoning about string
  literals, so `# zorilla: ignore` inside a docstring is read as a directive.

**Scope.** `include` and `exclude` decide which files are read at all. Both
*replace* the defaults rather than extending them, so list every pattern you
want. Explicit paths -- positional arguments, `--files`, `--files-from` --
bypass `include`, but `exclude` still applies: a hook lints every file it was
handed that is not excluded, and silently skips the rest.

```toml
[tool.zorilla]
include = [\"tests/**/*.py\", \"**/test_*.py\", \"**/*_test.py\", \"**/conftest.py\"]
exclude = [\"**/fixtures/**\"]
```

**Per-rule knobs.** Every rule takes `enabled = false`; five take more.

| Key | Default | Change it when |
|---|---|---|
| `ZR003.extra_helpers` | `[]` | a project-local assertion helper reads as no assertion |
| `ZR004.max_asserts` | `4` | bare asserts are conventional here and drown real findings |
| `ZR005.allowed_prefixes` | `[]` | a literal path or URL is genuinely local and safe |
| `ZR006.max_patches` | `3` | stacked `@patch` decorators are irreducible in this suite |
| `ZR008.max_patches` | `3` | the same, for `with patch(...)` context managers |

```toml
[tool.zorilla.rules.ZR004]
max_asserts = 6

[tool.zorilla.rules.ZR002]
enabled = false
```

Rule table keys are case-sensitive and uppercase: `[rules.zr004]` is silently
ignored, `[rules.ZR004]` is not.

**Precedence.** `zorilla.toml` > `pyproject.toml [tool.zorilla]` > defaults,
applied per directory. Discovery walks upward from the first path you name; in
each directory it checks `zorilla.toml`, then `pyproject.toml [tool.zorilla]`,
and the first directory holding either wins outright. A `pyproject.toml` with no
`[tool.zorilla]` table is skipped and the walk continues. Files are never
merged: a nested config replaces the one above it wholesale.

next: run `zorilla list-rules`
";

/// The one-line footer under any text report that surfaces findings.
pub const REPORT_FOOTER: &'static str = "Findings are not verdicts. Run `zorilla guide triage` for the remedy ladder, including when `# zorilla: ignore -- <reason>` is the right answer.";

/// Which set of instructions to print.
#[derive(Clone, Copy, PartialEq, Eq, Structural, Debug)]
pub enum Topic {
    /// zorilla is not configured in this repository yet.
    Setup,
    /// A check run reported findings; what to do with them.
    Triage,
    /// Suppression, scope and per-rule knobs.
    Tune,
}

pub open spec fn topic_name(t: Topic) -> Seq<char> {
    match t {
        Topic::Setup => "setup"@,
        Topic::Triage => "triage"@,
        Topic::Tune => "tune"@,
    }
}

pub open spec fn topic_text(t: Topic) -> Seq<char> {
    match t {
        Topic::Setup => SETUP@,
        Topic::Triage => TRIAGE@,
        Topic::Tune => TUNE@,
    }
}

impl Topic {
    /// The topic's name as written on the command line and in the header.
    pub fn name(self) -> (r: &'static str)
        ensures
            r@ == topic_name(self),
    {
        match self {
            Topic::Setup => "setup",
            Topic::Triage => "triage",
            Topic::Tune => "tune",
        }
    }

    /// The guide text.
    pub fn text(self) -> (r: &'static str)
        ensures
            r@ == topic_text(self),
    {
        match self {
            Topic::Setup => SETUP,
            Topic::Triage => TRIAGE,
            Topic::Tune => TUNE,
        }
    }

    /// Every topic, in order.
    pub fn all() -> (r: Vec<Topic>)
        ensures
            r@ == seq![Topic::Setup, Topic::Triage, Topic::Tune],
    {
        vec![Topic::Setup, Topic::Triage, Topic::Tune]
    }
}

/// What made a repository count as configured, in the precedence [`detect_in`]
/// applies.
#[derive(Clone, Copy, PartialEq, Eq, Structural, Debug)]
pub enum ConfigSource {
    /// A `zorilla.toml`.
    ZorillaToml,
    /// A `pyproject.toml` carrying a `[tool.zorilla]` table.
    PyProject,
    /// A `.pre-commit-config.yaml` wiring up a zorilla hook.
    PreCommit,
}

pub open spec fn source_label(s: ConfigSource) -> Seq<char> {
    match s {
        ConfigSource::ZorillaToml => "zorilla.toml"@,
        ConfigSource::PyProject => "pyproject.toml [tool.zorilla]"@,
        ConfigSource::PreCommit => ".pre-commit-config.yaml"@,
    }
}

impl ConfigSource {
    /// How the header line names this source.
    pub fn label(self) -> (r: &'static str)
        ensures
            r@ == source_label(self),
    {
        match self {
            ConfigSource::ZorillaToml => "zorilla.toml",
            ConfigSource::PyProject => "pyproject.toml [tool.zorilla]",
            ConfigSource::PreCommit => ".pre-commit-config.yaml",
        }
    }
}

/// How the printed topic was chosen.
#[derive(Clone, Copy, PartialEq, Eq, Structural, Debug)]
pub enum Selection {
    /// The caller named the topic.
    Explicit,
    /// Derived from what was found in the working directory.
    Auto(Option<ConfigSource>),
}

/// The topic chosen when the caller names none: triage once configured, else setup.
pub open spec fn auto_topic_spec(source: Option<ConfigSource>) -> Topic {
    if source is Some {
        Topic::Triage
    } else {
        Topic::Setup
    }
}

/// `tune` is a reference: detection never picks it.
pub proof fn law_tune_is_never_auto_selected(source: Option<ConfigSource>)
    ensures
        auto_topic_spec(source) != Topic::Tune,
{
}

/// The topic to print when the caller named none (see [`auto_topic_spec`]).
pub fn auto_topic(source: Option<ConfigSource>) -> (r: Topic)
    ensures
        r == auto_topic_spec(source),
{
    if source.is_some() {
        Topic::Triage
    } else {
        Topic::Setup
    }
}

/// Which source configures a directory, given what it holds: a `zorilla.toml`
/// wins, then a `pyproject.toml` with a `[tool.zorilla]` table, then a pre-commit
/// config that wires up zorilla.
pub fn detect_in(has_zorilla_toml: bool, pyproject_has_table: bool, pre_commit_refers: bool) -> (r:
    Option<ConfigSource>)
    ensures
        r == (if has_zorilla_toml {
            Some(ConfigSource::ZorillaToml)
        } else if pyproject_has_table {
            Some(ConfigSource::PyProject)
        } else if pre_commit_refers {
            Some(ConfigSource::PreCommit)
        } else {
            None
        }),
{
    if has_zorilla_toml {
        return Some(ConfigSource::ZorillaToml);
    }
    if pyproject_has_table {
        return Some(ConfigSource::PyProject);
    }
    if pre_commit_refers {
        return Some(ConfigSource::PreCommit);
    }
    None
}

/// The first line of every guide.
pub open spec fn header_spec(topic: Topic, selection: Selection) -> Seq<char> {
    match selection {
        Selection::Explicit => "# zorilla guide: "@ + topic_name(topic),
        Selection::Auto(None) => "# zorilla guide: not configured here -> "@ + topic_name(topic),
        Selection::Auto(Some(s)) => "# zorilla guide: configured via "@ + source_label(s) + " -> "@
            + topic_name(topic),
    }
}

/// The first line of every guide, naming the topic and how it was chosen.
pub fn header(topic: Topic, selection: Selection) -> (r: String)
    ensures
        r@ == header_spec(topic, selection),
{
    let mut v: Vec<char> = Vec::new();
    match selection {
        Selection::Explicit => {
            crate::text::push_str(&mut v, "# zorilla guide: ");
        },
        Selection::Auto(None) => {
            crate::text::push_str(&mut v, "# zorilla guide: not configured here -> ");
        },
        Selection::Auto(Some(s)) => {
            crate::text::push_str(&mut v, "# zorilla guide: configured via ");
            crate::text::push_str(&mut v, s.label());
            crate::text::push_str(&mut v, " -> ");
        },
    }
    crate::text::push_str(&mut v, topic.name());
    crate::text::string_of(&v)
}

/// The complete guide output: header line, blank line, then the guide verbatim.
pub fn render(topic: Topic, selection: Selection) -> (r: String)
    ensures
        r@ == header_spec(topic, selection) + "\n\n"@ + topic_text(topic),
{
    let h = header(topic, selection);
    let mut v = crate::text::str_chars(h.as_str());
    crate::text::push_str(&mut v, "\n\n");
    crate::text::push_str(&mut v, topic.text());
    crate::text::string_of(&v)
}

/// One-line footer shown at the foot of any text report that surfaces findings.
pub fn report_footer() -> (r: &'static str)
    ensures
        r@ == REPORT_FOOTER@,
{
    REPORT_FOOTER
}

/// Appends the footer to a text report: a blank line, the footer, a newline.
pub fn push_report_footer(out: &mut Vec<char>)
    ensures
        final(out)@ == old(out)@ + "\n"@ + REPORT_FOOTER@ + "\n"@,
{
    crate::text::push_str(out, "\n");
    crate::text::push_str(out, REPORT_FOOTER);
    crate::text::push_str(out, "\n");
}


proof fn lemma_literal_len_fence()
    ensures
        "```"@.len() == 3,
{
    reveal_strlit("```");
}

/// A line that opens or closes a fenced block.
pub open spec fn is_fence_marker(line: Seq<char>) -> bool {
    starts_with(trim_start(line), "```"@)
}

/// The info string of the fence open after the lines `ls`, if one is open: a marker
/// closes an open fence and otherwise opens one with the marker's trimmed rest.
pub open spec fn fence_after(ls: Seq<Seq<char>>) -> Option<Seq<char>>
    decreases ls.len(),
{
    if ls.len() == 0 {
        None
    } else {
        let f = fence_after(ls.drop_last());
        if is_fence_marker(ls.last()) {
            if f is Some {
                None
            } else {
                Some(trim(trim_start(ls.last()).skip(3)))
            }
        } else {
            f
        }
    }
}

/// Every line of `ls` that is not a fence marker, with the fence it sits in.
pub open spec fn fenced_lines(ls: Seq<Seq<char>>) -> Seq<(Seq<char>, Option<Seq<char>>)>
    decreases ls.len(),
{
    if ls.len() == 0 {
        Seq::empty()
    } else {
        let prev = fenced_lines(ls.drop_last());
        if is_fence_marker(ls.last()) {
            prev
        } else {
            prev.push((ls.last(), fence_after(ls.drop_last())))
        }
    }
}

/// View of an optional character vector.
pub open spec fn opt_chars(o: Option<Vec<char>>) -> Option<Seq<char>> {
    match o {
        Some(v) => Some(v@),
        None => None,
    }
}

/// `Some(info)` when `line` is a fence marker, with `info` its trimmed rest.
fn fence_marker(line: &Vec<char>) -> (r: Option<Vec<char>>)
    ensures
        r is Some == is_fence_marker(line@),
        r matches Some(v) ==> v@ == trim(trim_start(line@).skip(3)),
{
    let (a, _b) = crate::text::trim_range(line, 0, line.len());
    proof {
        assert(line@.subrange(0, line@.len() as int) =~= line@);
    }
    if crate::text::range_starts_with_str(line, a, line.len(), "```") {
        proof {
            lemma_literal_len_fence();
            assert(line@.subrange(a as int, line@.len() as int).skip(3) =~= line@.subrange(
                a + 3,
                line@.len() as int,
            ));
        }
        let (p, q) = crate::text::trim_range(line, a + 3, line.len());
        Some(crate::text::slice_chars(line, p, q))
    } else {
        None
    }
}

/// The non-marker lines of `text` with the fence each sits in.
fn fence_lines(text: &[char]) -> (r: Vec<(Vec<char>, Option<Vec<char>>)>)
    ensures
        r@.len() == fenced_lines(lines(text@)).len(),
        forall|i: int|
            0 <= i < r@.len() ==> (#[trigger] r@[i]).0@ == fenced_lines(lines(text@))[i].0
                && opt_chars(r@[i].1) == fenced_lines(lines(text@))[i].1,
{
    let ls = lines_of(text);
    let ghost big = lines(text@);
    let mut fence: Option<Vec<char>> = None;
    let mut out: Vec<(Vec<char>, Option<Vec<char>>)> = Vec::new();
    let mut k: usize = 0;
    while k < ls.len()
        invariant
            ls@.len() == big.len(),
            forall|i: int| 0 <= i < ls@.len() ==> #[trigger] ls@[i]@ == big[i],
            0 <= k <= ls@.len(),
            opt_chars(fence) == fence_after(big.take(k as int)),
            out@.len() == fenced_lines(big.take(k as int)).len(),
            forall|i: int|
                0 <= i < out@.len() ==> (#[trigger] out@[i]).0@ == fenced_lines(big.take(k as int))[i].0
                    && opt_chars(out@[i].1) == fenced_lines(big.take(k as int))[i].1,
        decreases ls.len() - k,
    {
        proof {
            assert(big.take(k + 1).drop_last() =~= big.take(k as int));
            assert(big.take(k + 1).last() == ls@[k as int]@);
        }
        match fence_marker(&ls[k]) {
            Some(info) => {
                fence = match fence {
                    Some(_) => None,
                    None => Some(info),
                };
            },
            None => {
                let line = crate::text::slice_chars(&ls[k], 0, ls[k].len());
                proof {
                    assert(ls@[k as int]@.subrange(0, ls@[k as int]@.len() as int) =~= ls@[k as int]@);
                }
                let f = match &fence {
                    Some(v) => {
                        let c = crate::text::slice_chars(v, 0, v.len());
                        proof {
                            assert(v@.subrange(0, v@.len() as int) =~= v@);
                        }
                        Some(c)
                    },
                    None => None,
                };
                out.push((line, f));
            },
        }
        k = k + 1;
    }
    proof {
        assert(big.take(ls@.len() as int) =~= big);
    }
    out
}

/// Each line of `text` that is not a fence marker, paired with the info string of
/// the fence it sits in (`None` outside any fence).
pub fn lines_with_fence(text: &str) -> (r: Vec<(String, Option<String>)>)
    ensures
        r@.len() == fenced_lines(lines(text@)).len(),
        forall|i: int|
            0 <= i < r@.len() ==> (#[trigger] r@[i]).0@ == fenced_lines(lines(text@))[i].0 && (match r@[i].1 {
                Some(s) => Some(s@),
                None => None,
            }) == fenced_lines(lines(text@))[i].1,
{
    let cs = crate::text::str_chars(text);
    let fl = fence_lines(&cs);
    let mut out: Vec<(String, Option<String>)> = Vec::new();
    let mut i: usize = 0;
    while i < fl.len()
        invariant
            0 <= i <= fl@.len(),
            out@.len() == i,
            forall|j: int|
                0 <= j < i ==> (#[trigger] out@[j]).0@ == fl@[j].0@ && (match out@[j].1 {
                    Some(s) => Some(s@),
                    None => None,
                }) == opt_chars(fl@[j].1),
        decreases fl.len() - i,
    {
        let line = crate::text::string_of(&fl[i].0);
        let f = match &fl[i].1 {
            Some(v) => Some(crate::text::string_of(v)),
            None => None,
        };
        out.push((line, f));
        i = i + 1;
    }
    out
}


/// The backtick-delimited spans of `s`, in order: from each unmatched opening
/// backtick to the next one.
pub open spec fn backtick_spans(s: Seq<char>) -> Seq<Seq<char>>
    decreases s.len(),
{
    if !s.contains('`') {
        Seq::empty()
    } else {
        proof {
            crate::text::lemma_first_index_exists(s, '`');
        }
        let after = s.skip(first_index_of(s, '`') + 1);
        if !after.contains('`') {
            Seq::empty()
        } else {
            proof {
                crate::text::lemma_first_index_exists(after, '`');
            }
            let close = first_index_of(after, '`');
            seq![after.take(close)] + backtick_spans(after.skip(close + 1))
        }
    }
}

/// The backtick spans of `s[lo..]`.
#[verifier::spinoff_prover]
fn spans_in(s: &Vec<char>, lo: usize) -> (r: Vec<Vec<char>>)
    requires
        lo <= s@.len(),
    ensures
        r@.len() == backtick_spans(s@.skip(lo as int)).len(),
        forall|i: int| 0 <= i < r@.len() ==> #[trigger] r@[i]@ == backtick_spans(s@.skip(lo as int))[i],
    decreases s@.len() - lo,
{
    let ghost w = s@.skip(lo as int);
    assert(s@.len() == s.len());
    match crate::text::find_char_from(s, '`', lo) {
        None => {
            proof {
                assert forall|j: int| 0 <= j < w.len() implies w[j] != '`' by {
                    assert(w[j] == s@[lo + j]);
                }
                assert(!w.contains('`'));
            }
            Vec::new()
        },
        Some(o) => {
            proof {
                assert(w[o - lo] == '`');
                assert forall|j: int| 0 <= j < o - lo implies w[j] != '`' by {
                    assert(w[j] == s@[lo + j]);
                }
                crate::text::lemma_first_index_of(w, '`', o - lo);
                assert(w.skip(o - lo + 1) =~= s@.skip(o + 1));
            }
            let ghost after = s@.skip(o + 1);
            match crate::text::find_char_from(s, '`', o + 1) {
                None => {
                    proof {
                        assert forall|j: int| 0 <= j < after.len() implies after[j] != '`' by {
                            assert(after[j] == s@[o + 1 + j]);
                        }
                        assert(!after.contains('`'));
                    }
                    Vec::new()
                },
                Some(c) => {
                    proof {
                        assert(after[c - o - 1] == '`');
                        assert forall|j: int| 0 <= j < c - o - 1 implies after[j] != '`' by {
                            assert(after[j] == s@[o + 1 + j]);
                        }
                        crate::text::lemma_first_index_of(after, '`', c - o - 1);
                        assert(after.take(c - o - 1) =~= s@.subrange(o + 1, c as int));
                        assert(after.skip(c - o - 1 + 1) =~= s@.skip(c + 1));
                    }
                    let first = crate::text::slice_chars(s, o + 1, c);
                    let rest = spans_in(s, c + 1);
                    let mut out: Vec<Vec<char>> = Vec::new();
                    out.push(first);
                    let mut i: usize = 0;
                    while i < rest.len()
                        invariant
                            out@.len() == 1 + i,
                            out@[0]@ == s@.subrange(o + 1, c as int),
                            0 <= i <= rest@.len(),
                            forall|j: int| 0 <= j < i ==> #[trigger] out@[1 + j]@ == rest@[j]@,
                        decreases rest.len() - i,
                    {
                        let v = crate::text::slice_chars(&rest[i], 0, rest[i].len());
                        proof {
                            assert(rest@[i as int]@.subrange(0, rest@[i as int]@.len() as int) =~= rest@[i as int]@);
                        }
                        out.push(v);
                        i = i + 1;
                    }
                    proof {
                        let bs = backtick_spans(w);
                        assert(bs == seq![after.take(c - o - 1)] + backtick_spans(s@.skip(c + 1)));
                        assert forall|j: int| 0 <= j < out@.len() implies #[trigger] out@[j]@ == bs[j] by {
                            if j > 0 {
                                assert(out@[1 + (j - 1)]@ == rest@[j - 1]@);
                            }
                        }
                    }
                    out
                },
            }
        },
    }
}

/// Inline code spans of the lines outside any fence, in order.
pub open spec fn inline_spans(fl: Seq<(Seq<char>, Option<Seq<char>>)>) -> Seq<Seq<char>>
    decreases fl.len(),
{
    if fl.len() == 0 {
        Seq::empty()
    } else {
        inline_spans(fl.drop_last()) + if fl.last().1 is None {
            backtick_spans(fl.last().0)
        } else {
            Seq::empty()
        }
    }
}

/// Non-blank lines inside `bash` fences, in order.
pub open spec fn bash_lines(fl: Seq<(Seq<char>, Option<Seq<char>>)>) -> Seq<Seq<char>>
    decreases fl.len(),
{
    if fl.len() == 0 {
        Seq::empty()
    } else {
        let prev = bash_lines(fl.drop_last());
        if fl.last().1 == Some("bash"@) && trim(fl.last().0).len() > 0 {
            prev.push(fl.last().0)
        } else {
            prev
        }
    }
}

/// Appends every vector of `extra` to `out`.
fn append_all(out: &mut Vec<Vec<char>>, extra: Vec<Vec<char>>)
    ensures
        final(out)@.len() == old(out)@.len() + extra@.len(),
        forall|j: int| 0 <= j < old(out)@.len() ==> #[trigger] final(out)@[j] == old(out)@[j],
        forall|j: int| 0 <= j < extra@.len() ==> #[trigger] final(out)@[old(out)@.len() + j]@ == extra@[j]@,
{
    let ghost o = out@;
    let mut i: usize = 0;
    while i < extra.len()
        invariant
            out@.len() == o.len() + i,
            0 <= i <= extra@.len(),
            forall|j: int| 0 <= j < o.len() ==> #[trigger] out@[j] == o[j],
            forall|j: int| 0 <= j < i ==> #[trigger] out@[o.len() + j]@ == extra@[j]@,
        decreases extra.len() - i,
    {
        let v = crate::text::slice_chars(&extra[i], 0, extra[i].len());
        proof {
            assert(extra@[i as int]@.subrange(0, extra@[i as int]@.len() as int) =~= extra@[i as int]@);
        }
        out.push(v);
        i = i + 1;
    }
}

proof fn lemma_inline_step(f: Seq<(Seq<char>, Option<Seq<char>>)>, k: int)
    requires
        0 <= k < f.len(),
    ensures
        inline_spans(f.take(k + 1)) == inline_spans(f.take(k)) + if f[k].1 is None {
            backtick_spans(f[k].0)
        } else {
            Seq::empty()
        },
{
    assert(f.take(k + 1).drop_last() =~= f.take(k));
    assert(f.take(k + 1).last() == f[k]);
}

/// Appending spans that match `b` to spans that match `a` gives spans that match
/// `a + b`.
proof fn lemma_spans_appended(spans: Seq<Vec<char>>, before: Seq<Vec<char>>, found: Seq<Vec<char>>, a: Seq<Seq<char>>, b: Seq<Seq<char>>)
    requires
        before.len() == a.len(),
        forall|i: int| 0 <= i < before.len() ==> #[trigger] before[i]@ == a[i],
        found.len() == b.len(),
        forall|j: int| 0 <= j < found.len() ==> #[trigger] found[j]@ == b[j],
        spans.len() == before.len() + found.len(),
        forall|j: int| 0 <= j < before.len() ==> #[trigger] spans[j] == before[j],
        forall|j: int| 0 <= j < found.len() ==> #[trigger] spans[before.len() + j]@ == found[j]@,
    ensures
        spans.len() == (a + b).len(),
        forall|i: int| 0 <= i < spans.len() ==> #[trigger] spans[i]@ == (a + b)[i],
{
    assert forall|i: int| 0 <= i < spans.len() implies #[trigger] spans[i]@ == (a + b)[i] by {
        if i < before.len() {
            assert(spans[i] == before[i]);
        } else {
            let j = i - before.len();
            assert(spans[before.len() + j]@ == found[j]@);
        }
    }
}

/// Appends the inline spans of `line` to `spans`, which match `a`.
fn push_line_spans(spans: &mut Vec<Vec<char>>, line: &Vec<char>, Ghost(a): Ghost<Seq<Seq<char>>>)
    requires
        old(spans)@.len() == a.len(),
        forall|i: int| 0 <= i < old(spans)@.len() ==> #[trigger] old(spans)@[i]@ == a[i],
    ensures
        final(spans)@.len() == (a + backtick_spans(line@)).len(),
        forall|i: int| 0 <= i < final(spans)@.len() ==> #[trigger] final(spans)@[i]@ == (a + backtick_spans(line@))[i],
{
    let found = spans_in(line, 0);
    proof {
        assert(line@.skip(0) =~= line@);
    }
    let ghost before = spans@;
    let ghost found_v = found@;
    append_all(spans, found);
    proof {
        lemma_spans_appended(spans@, before, found_v, a, backtick_spans(line@));
    }
}

/// Inline spans of the lines of `fl` that sit outside fences.
#[verifier::rlimit(30)]
#[verifier::spinoff_prover]
fn inline_span_chars(fl: &Vec<(Vec<char>, Option<Vec<char>>)>, f: Ghost<Seq<(Seq<char>, Option<Seq<char>>)>>) -> (r: Vec<Vec<char>>)
    requires
        fl@.len() == f@.len(),
        forall|i: int| 0 <= i < fl@.len() ==> (#[trigger] fl@[i]).0@ == f@[i].0 && opt_chars(fl@[i].1) == f@[i].1,
    ensures
        r@.len() == inline_spans(f@).len(),
        forall|i: int| 0 <= i < r@.len() ==> #[trigger] r@[i]@ == inline_spans(f@)[i],
{
    let ghost f = f@;
    let mut spans: Vec<Vec<char>> = Vec::new();
    let mut k: usize = 0;
    while k < fl.len()
        invariant
            fl@.len() == f.len(),
            forall|i: int| 0 <= i < fl@.len() ==> (#[trigger] fl@[i]).0@ == f[i].0 && opt_chars(fl@[i].1) == f[i].1,
            0 <= k <= fl@.len(),
            spans@.len() == inline_spans(f.take(k as int)).len(),
            forall|i: int| 0 <= i < spans@.len() ==> #[trigger] spans@[i]@ == inline_spans(f.take(k as int))[i],
        decreases fl.len() - k,
    {
        proof {
            lemma_inline_step(f, k as int);
        }
        if fl[k].1.is_none() {
            push_line_spans(&mut spans, &fl[k].0, Ghost(inline_spans(f.take(k as int))));
        } else {
            proof {
                assert(inline_spans(f.take(k as int)) + Seq::<Seq<char>>::empty() =~= inline_spans(f.take(k as int)));
            }
        }
        k = k + 1;
    }
    proof {
        assert(f.take(fl@.len() as int) =~= f);
    }
    spans
}

/// Non-blank lines of `fl` inside `bash` fences.
fn bash_line_chars(fl: &Vec<(Vec<char>, Option<Vec<char>>)>, f: Ghost<Seq<(Seq<char>, Option<Seq<char>>)>>) -> (r: Vec<Vec<char>>)
    requires
        fl@.len() == f@.len(),
        forall|i: int| 0 <= i < fl@.len() ==> (#[trigger] fl@[i]).0@ == f@[i].0 && opt_chars(fl@[i].1) == f@[i].1,
    ensures
        r@.len() == bash_lines(f@).len(),
        forall|i: int| 0 <= i < r@.len() ==> #[trigger] r@[i]@ == bash_lines(f@)[i],
{
    let ghost f = f@;
    let mut bash: Vec<Vec<char>> = Vec::new();
    let mut k: usize = 0;
    while k < fl.len()
        invariant
            fl@.len() == f.len(),
            forall|i: int| 0 <= i < fl@.len() ==> (#[trigger] fl@[i]).0@ == f[i].0 && opt_chars(fl@[i].1) == f[i].1,
            0 <= k <= fl@.len(),
            bash@.len() == bash_lines(f.take(k as int)).len(),
            forall|i: int| 0 <= i < bash@.len() ==> #[trigger] bash@[i]@ == bash_lines(f.take(k as int))[i],
        decreases fl.len() - k,
    {
        proof {
            assert(f.take(k + 1).drop_last() =~= f.take(k as int));
            assert(f.take(k + 1).last() == f[k as int]);
        }
        let line = &fl[k].0;
        if let Some(info) = &fl[k].1 {
            let (a, b) = crate::text::trim_range(line, 0, line.len());
            proof {
                assert(line@.subrange(0, line@.len() as int) =~= line@);
            }
            if crate::text::eq_str(info, "bash") && a < b {
                let c = crate::text::slice_chars(line, 0, line.len());
                bash.push(c);
            }
        }
        k = k + 1;
    }
    proof {
        assert(f.take(fl@.len() as int) =~= f);
    }
    bash
}

/// Command strings written in a guide (as character vectors).
fn command_line_chars(text: &[char]) -> (r: Vec<Vec<char>>)
    ensures
        r@.len() == (inline_spans(fenced_lines(lines(text@))) + bash_lines(fenced_lines(lines(text@)))).len(),
        forall|i: int|
            0 <= i < r@.len() ==> #[trigger] r@[i]@ == (inline_spans(fenced_lines(lines(text@)))
                + bash_lines(fenced_lines(lines(text@))))[i],
{
    let fl = fence_lines(text);
    let ghost f = fenced_lines(lines(text@));
    let mut spans = inline_span_chars(&fl, Ghost(f));
    let bash = bash_line_chars(&fl, Ghost(f));
    let ghost s0 = spans@;
    append_all(&mut spans, bash);
    proof {
        let target = inline_spans(f) + bash_lines(f);
        assert forall|i: int| 0 <= i < spans@.len() implies #[trigger] spans@[i]@ == target[i] by {
            if i >= s0.len() {
                let j = i - s0.len();
                assert(spans@[s0.len() + j]@ == bash@[j]@);
            }
        }
    }
    spans
}

/// Owned strings of character vectors.
fn strings_of(v: &Vec<Vec<char>>) -> (r: Vec<String>)
    ensures
        r@.len() == v@.len(),
        forall|i: int| 0 <= i < v@.len() ==> #[trigger] r@[i]@ == v@[i]@,
{
    let mut out: Vec<String> = Vec::new();
    let mut i: usize = 0;
    while i < v.len()
        invariant
            0 <= i <= v@.len(),
            out@.len() == i,
            forall|j: int| 0 <= j < i ==> #[trigger] out@[j]@ == v@[j]@,
        decreases v.len() - i,
    {
        out.push(crate::text::string_of(&v[i]));
        i = i + 1;
    }
    out
}

/// Inline code spans of the lines outside fences, in source order.
pub fn inline_code_spans(text: &str) -> (r: Vec<String>)
    ensures
        r@.len() == inline_spans(fenced_lines(lines(text@))).len(),
        forall|i: int| 0 <= i < r@.len() ==> #[trigger] r@[i]@ == inline_spans(fenced_lines(lines(text@)))[i],
{
    let cs = crate::text::str_chars(text);
    let fl = fence_lines(&cs);
    let ghost f = fenced_lines(lines(text@));
    let spans = inline_span_chars(&fl, Ghost(f));
    strings_of(&spans)
}

/// Command strings written in a guide: inline backtick spans, then every non-blank
/// line of a fenced `bash` block.
pub fn command_lines(text: &str) -> (r: Vec<String>)
    ensures
        r@.len() == (inline_spans(fenced_lines(lines(text@))) + bash_lines(fenced_lines(lines(text@)))).len(),
        forall|i: int|
            0 <= i < r@.len() ==> #[trigger] r@[i]@ == (inline_spans(fenced_lines(lines(text@)))
                + bash_lines(fenced_lines(lines(text@))))[i],
{
    let cs = crate::text::str_chars(text);
    let v = command_line_chars(&cs);
    strings_of(&v)
}


/// `text` invokes zorilla: it is `zorilla` or starts with `zorilla `.
pub open spec fn is_zorilla_cmd(t: Seq<char>) -> bool {
    t == "zorilla"@ || starts_with(t, "zorilla "@)
}

/// Is this text the start of a `zorilla` invocation?
pub fn is_zorilla_command(text: &str) -> (r: bool)
    ensures
        r == is_zorilla_cmd(text@),
{
    let cs = crate::text::str_chars(text);
    crate::text::eq_str(&cs, "zorilla") || crate::text::starts_with_str(&cs, "zorilla ")
}

/// A token that is not part of a `<placeholder>`.
pub open spec fn keep_token(w: Seq<char>) -> bool {
    !w.contains('<') && !w.contains('>')
}

/// The tokens of `ws` that are kept, in order.
pub open spec fn kept_tokens(ws: Seq<Seq<char>>) -> Seq<Seq<char>>
    decreases ws.len(),
{
    if ws.len() == 0 {
        Seq::empty()
    } else {
        let prev = kept_tokens(ws.drop_last());
        if keep_token(ws.last()) {
            prev.push(ws.last())
        } else {
            prev
        }
    }
}

/// The argument vectors of the pipe segments that invoke zorilla.
pub open spec fn invocations(pieces: Seq<Seq<char>>) -> Seq<Seq<Seq<char>>>
    decreases pieces.len(),
{
    if pieces.len() == 0 {
        Seq::empty()
    } else {
        let prev = invocations(pieces.drop_last());
        let seg = trim(pieces.last());
        if is_zorilla_cmd(seg) {
            prev.push(kept_tokens(words(seg)))
        } else {
            prev
        }
    }
}

/// Views of a vector of strings.
pub open spec fn strs_view(v: Vec<String>) -> Seq<Seq<char>> {
    v@.map_values(|s: String| s@)
}

/// Views of a vector of character vectors.
pub open spec fn chars_view(v: Vec<Vec<char>>) -> Seq<Seq<char>> {
    v@.map_values(|s: Vec<char>| s@)
}

fn has_char(s: &Vec<char>, c: char) -> (r: bool)
    ensures
        r == s@.contains(c),
{
    match crate::text::find_char_from(s, c, 0) {
        Some(i) => {
            assert(s@[i as int] == c);
            true
        },
        None => false,
    }
}

/// The argument vector of one zorilla segment: its words, placeholders dropped.
fn argv_chars(seg: &Vec<char>) -> (r: Vec<Vec<char>>)
    ensures
        chars_view(r) == kept_tokens(words(seg@)),
{
    let ws = crate::text::words_from(seg, 0);
    proof {
        assert(seg@.skip(0) =~= seg@);
    }
    let ghost w = words(seg@);
    let mut out: Vec<Vec<char>> = Vec::new();
    let mut i: usize = 0;
    while i < ws.len()
        invariant
            ws@.len() == w.len(),
            forall|j: int| 0 <= j < ws@.len() ==> #[trigger] ws@[j]@ == w[j],
            0 <= i <= ws@.len(),
            chars_view(out) == kept_tokens(w.take(i as int)),
        decreases ws.len() - i,
    {
        proof {
            assert(w.take(i + 1).drop_last() =~= w.take(i as int));
            assert(w.take(i + 1).last() == w[i as int]);
        }
        if !has_char(&ws[i], '<') && !has_char(&ws[i], '>') {
            let c = crate::text::slice_chars(&ws[i], 0, ws[i].len());
            proof {
                assert(ws@[i as int]@.subrange(0, ws@[i as int]@.len() as int) =~= ws@[i as int]@);
            }
            let ghost before = out@;
            out.push(c);
            proof {
                assert(out@.map_values(|s: Vec<char>| s@) =~= before.map_values(|s: Vec<char>| s@).push(c@));
            }
        }
        i = i + 1;
    }
    proof {
        assert(w.take(ws@.len() as int) =~= w);
    }
    out
}

/// Argument vectors of the zorilla segments of `line` split at pipes.
fn invocation_chars(line: &[char]) -> (r: Vec<Vec<Vec<char>>>)
    ensures
        r@.map_values(|a: Vec<Vec<char>>| chars_view(a)) == invocations(split_on(line@, '|')),
{
    let pieces = crate::text::split_chars(line, '|');
    let ghost ps = split_on(line@, '|');
    let mut out: Vec<Vec<Vec<char>>> = Vec::new();
    let mut k: usize = 0;
    while k < pieces.len()
        invariant
            pieces@.len() == ps.len(),
            forall|j: int| 0 <= j < pieces@.len() ==> #[trigger] pieces@[j]@ == ps[j],
            0 <= k <= pieces@.len(),
            out@.map_values(|a: Vec<Vec<char>>| chars_view(a)) == invocations(ps.take(k as int)),
        decreases pieces.len() - k,
    {
        proof {
            assert(ps.take(k + 1).drop_last() =~= ps.take(k as int));
            assert(ps.take(k + 1).last() == ps[k as int]);
        }
        let seg = crate::text::trimmed(&pieces[k]);
        if crate::text::eq_str(&seg, "zorilla") || crate::text::starts_with_str(&seg, "zorilla ") {
            let argv = argv_chars(&seg);
            let ghost before = out@;
            out.push(argv);
            proof {
                assert(out@.map_values(|a: Vec<Vec<char>>| chars_view(a)) =~= before.map_values(
                    |a: Vec<Vec<char>>| chars_view(a),
                ).push(chars_view(argv)));
            }
        }
        k = k + 1;
    }
    proof {
        assert(ps.take(pieces@.len() as int) =~= ps);
    }
    out
}

/// Owned argument vectors.
fn argvs_of(v: &Vec<Vec<Vec<char>>>) -> (r: Vec<Vec<String>>)
    ensures
        r@.map_values(|a: Vec<String>| strs_view(a)) == v@.map_values(|a: Vec<Vec<char>>| chars_view(a)),
{
    let mut out: Vec<Vec<String>> = Vec::new();
    let mut i: usize = 0;
    while i < v.len()
        invariant
            0 <= i <= v@.len(),
            out@.len() == i,
            forall|j: int| 0 <= j < i ==> strs_view(#[trigger] out@[j]) == chars_view(v@[j]),
        decreases v.len() - i,
    {
        let s = strings_of(&v[i]);
        proof {
            assert(strs_view(s) =~= chars_view(v@[i as int]));
        }
        out.push(s);
        i = i + 1;
    }
    proof {
        assert(out@.map_values(|a: Vec<String>| strs_view(a)) =~= v@.map_values(|a: Vec<Vec<char>>| chars_view(a)));
    }
    out
}

/// Splits a command line on pipes and keeps the segments that invoke zorilla, each
/// as its words with `<placeholder>` tokens dropped.
pub fn zorilla_invocations(line: &str) -> (r: Vec<Vec<String>>)
    ensures
        r@.map_values(|a: Vec<String>| strs_view(a)) == invocations(split_on(line@, '|')),
{
    let cs = crate::text::str_chars(line);
    let v = invocation_chars(&cs);
    argvs_of(&v)
}

/// Every invocation shown by the command strings `cmds`, in order.
pub open spec fn all_invocations(cmds: Seq<Seq<char>>) -> Seq<Seq<Seq<char>>>
    decreases cmds.len(),
{
    if cmds.len() == 0 {
        Seq::empty()
    } else {
        all_invocations(cmds.drop_last()) + invocations(split_on(cmds.last(), '|'))
    }
}

/// Every zorilla invocation a guide shows, as argument vectors.
pub fn embedded_invocations(topic: Topic) -> (r: Vec<Vec<String>>)
    ensures
        r@.map_values(|a: Vec<String>| strs_view(a)) == all_invocations(
            inline_spans(fenced_lines(lines(topic_text(topic)))) + bash_lines(
                fenced_lines(lines(topic_text(topic))),
            ),
        ),
{
    let cs = crate::text::str_chars(topic.text());
    let cmds = command_line_chars(&cs);
    let ghost c = inline_spans(fenced_lines(lines(topic_text(topic)))) + bash_lines(
        fenced_lines(lines(topic_text(topic))),
    );
    let mut out: Vec<Vec<Vec<char>>> = Vec::new();
    let mut k: usize = 0;
    while k < cmds.len()
        invariant
            cmds@.len() == c.len(),
            forall|j: int| 0 <= j < cmds@.len() ==> #[trigger] cmds@[j]@ == c[j],
            0 <= k <= cmds@.len(),
            out@.map_values(|a: Vec<Vec<char>>| chars_view(a)) == all_invocations(c.take(k as int)),
        decreases cmds.len() - k,
    {
        proof {
            assert(c.take(k + 1).drop_last() =~= c.take(k as int));
            assert(c.take(k + 1).last() == c[k as int]);
        }
        let found = invocation_chars(&cmds[k]);
        append_argvs(&mut out, &found);
        k = k + 1;
    }
    proof {
        assert(c.take(cmds@.len() as int) =~= c);
    }
    argvs_of(&out)
}

/// Appends copies of `found` to `out`.
fn append_argvs(out: &mut Vec<Vec<Vec<char>>>, found: &Vec<Vec<Vec<char>>>)
    ensures
        final(out)@.map_values(|a: Vec<Vec<char>>| chars_view(a)) == old(out)@.map_values(
            |a: Vec<Vec<char>>| chars_view(a),
        ) + found@.map_values(|a: Vec<Vec<char>>| chars_view(a)),
{
    let ghost before = out@;
    let mut i: usize = 0;
    while i < found.len()
        invariant
            0 <= i <= found@.len(),
            out@.len() == before.len() + i,
            forall|j: int| 0 <= j < before.len() ==> #[trigger] out@[j] == before[j],
            forall|j: int| 0 <= j < i ==> chars_view(#[trigger] out@[before.len() + j]) == chars_view(found@[j]),
        decreases found.len() - i,
    {
        let argv = copy_argv(&found[i]);
        proof {
            assert(chars_view(argv) =~= chars_view(found@[i as int]));
        }
        out.push(argv);
        i = i + 1;
    }
    proof {
        let lhs = out@.map_values(|a: Vec<Vec<char>>| chars_view(a));
        let rhs = before.map_values(|a: Vec<Vec<char>>| chars_view(a)) + found@.map_values(
            |a: Vec<Vec<char>>| chars_view(a),
        );
        assert forall|j: int| 0 <= j < lhs.len() implies lhs[j] == rhs[j] by {
            if j >= before.len() {
                let t = j - before.len();
                assert(chars_view(out@[before.len() + t]) == chars_view(found@[t]));
            }
        }
        assert(lhs =~= rhs);
    }
}

/// A copy of an argument vector.
fn copy_argv(v: &Vec<Vec<char>>) -> (r: Vec<Vec<char>>)
    ensures
        r@.len() == v@.len(),
        forall|i: int| 0 <= i < v@.len() ==> #[trigger] r@[i]@ == v@[i]@,
{
    let mut out: Vec<Vec<char>> = Vec::new();
    let mut i: usize = 0;
    while i < v.len()
        invariant
            0 <= i <= v@.len(),
            out@.len() == i,
            forall|j: int| 0 <= j < i ==> #[trigger] out@[j]@ == v@[j]@,
        decreases v.len() - i,
    {
        let c = crate::text::slice_chars(&v[i], 0, v[i].len());
        proof {
            assert(v@[i as int]@.subrange(0, v@[i as int]@.len() as int) =~= v@[i as int]@);
        }
        out.push(c);
        i = i + 1;
    }
    out
}


/// `s` without every leading `- ` (`trim_start_matches("- ")`).
pub open spec fn strip_dashes(s: Seq<char>) -> Seq<char>
    decreases s.len(),
{
    if s.len() >= 2 && s[0] == '-' && s[1] == ' ' {
        strip_dashes(s.skip(2))
    } else {
        s
    }
}

pub open spec fn is_quote(c: char) -> bool {
    c == '"' || c == '\''
}

/// Number of leading quote characters of `s`.
pub open spec fn lead_quotes(s: Seq<char>) -> nat
    decreases s.len(),
{
    if s.len() > 0 && is_quote(s[0]) {
        1 + lead_quotes(s.drop_first())
    } else {
        0
    }
}

/// Number of trailing quote characters of `s`.
pub open spec fn trail_quotes(s: Seq<char>) -> nat
    decreases s.len(),
{
    if s.len() > 0 && is_quote(s.last()) {
        1 + trail_quotes(s.drop_last())
    } else {
        0
    }
}

/// `s` without leading and trailing quote characters (`trim_matches(['"', '\''])`).
pub open spec fn trim_quotes(s: Seq<char>) -> Seq<char> {
    let t = s.skip(lead_quotes(s) as int);
    t.take(t.len() - trail_quotes(t))
}

/// A YAML line that is an `id:` entry naming `zorilla` or a `zorilla-*` hook.
pub open spec fn yaml_id_names(line: Seq<char>) -> bool {
    let t = trim_start(strip_dashes(trim(line)));
    &&& t.len() >= 3 && t[0] == 'i' && t[1] == 'd' && t[2] == ':'
    &&& {
        let v = trim_quotes(trim(t.skip(3)));
        v == "zorilla"@ || starts_with(v, "zorilla-"@)
    }
}

proof fn lemma_lead_quotes(s: Seq<char>, k: int)
    requires
        0 <= k <= s.len(),
        forall|i: int| 0 <= i < k ==> is_quote(#[trigger] s[i]),
        k < s.len() ==> !is_quote(s[k]),
    ensures
        lead_quotes(s) == k,
    decreases s.len(),
{
    if k > 0 {
        assert forall|i: int| 0 <= i < k - 1 implies is_quote(#[trigger] s.drop_first()[i]) by {
            assert(s.drop_first()[i] == s[i + 1]);
        }
        if k - 1 < s.len() - 1 {
            assert(s.drop_first()[k - 1] == s[k]);
        }
        lemma_lead_quotes(s.drop_first(), k - 1);
    }
}

proof fn lemma_trail_quotes(s: Seq<char>, k: int)
    requires
        0 <= k <= s.len(),
        forall|i: int| s.len() - k <= i < s.len() ==> is_quote(#[trigger] s[i]),
        k < s.len() ==> !is_quote(s[s.len() - k - 1]),
    ensures
        trail_quotes(s) == k,
    decreases s.len(),
{
    if k > 0 {
        assert forall|i: int| s.len() - 1 - (k - 1) <= i < s.len() - 1 implies is_quote(#[trigger] s.drop_last()[i]) by {
            assert(s.drop_last()[i] == s[i]);
        }
        if k - 1 < s.len() - 1 {
            assert(s.drop_last()[s.len() - 1 - (k - 1) - 1] == s[s.len() - k - 1]);
        }
        lemma_trail_quotes(s.drop_last(), k - 1);
    }
}

/// Start of `strip_dashes(s[lo..hi])` inside `s`.
fn skip_dashes(s: &Vec<char>, lo: usize, hi: usize) -> (r: usize)
    requires
        lo <= hi <= s@.len(),
    ensures
        lo <= r <= hi,
        s@.subrange(r as int, hi as int) == strip_dashes(s@.subrange(lo as int, hi as int)),
    decreases hi - lo,
{
    let ghost w = s@.subrange(lo as int, hi as int);
    if hi - lo >= 2 && s[lo] == '-' && s[lo + 1] == ' ' {
        proof {
            assert(w[0] == s@[lo as int]);
            assert(w[1] == s@[lo + 1]);
            assert(w.skip(2) =~= s@.subrange(lo + 2, hi as int));
        }
        skip_dashes(s, lo + 2, hi)
    } else {
        proof {
            if hi - lo >= 2 {
                assert(w[0] == s@[lo as int]);
                assert(w[1] == s@[lo + 1]);
            }
        }
        lo
    }
}

fn char_is_quote(c: char) -> (r: bool)
    ensures
        r == is_quote(c),
{
    c == '"' || c == '\''
}

/// Exec [`yaml_id_names`] on `s[lo..hi]`.
fn yaml_id_range(s: &Vec<char>, lo: usize, hi: usize) -> (r: bool)
    requires
        lo <= hi <= s@.len(),
    ensures
        r == yaml_id_names(s@.subrange(lo as int, hi as int)),
{
    let ghost line = s@.subrange(lo as int, hi as int);
    let (a, b) = crate::text::trim_range(s, lo, hi);
    let d = skip_dashes(s, a, b);
    let (t0, _t1) = crate::text::trim_range(s, d, b);
    let ghost t = trim_start(strip_dashes(trim(line)));
    proof {
        assert(t == s@.subrange(t0 as int, b as int));
    }
    if !(b - t0 >= 3 && s[t0] == 'i' && s[t0 + 1] == 'd' && s[t0 + 2] == ':') {
        proof {
            if b - t0 >= 3 {
                assert(t[0] == s@[t0 as int] && t[1] == s@[t0 + 1] && t[2] == s@[t0 + 2]);
            }
        }
        return false;
    }
    proof {
        assert(t[0] == s@[t0 as int] && t[1] == s@[t0 + 1] && t[2] == s@[t0 + 2]);
        assert(t.skip(3) =~= s@.subrange(t0 + 3, b as int));
    }
    let (p, q) = crate::text::trim_range(s, t0 + 3, b);
    let ghost u = trim(t.skip(3));
    assert(u == s@.subrange(p as int, q as int));
    let mut x: usize = p;
    while x < q && char_is_quote(s[x])
        invariant
            p <= x <= q <= s@.len(),
            forall|i: int| p <= i < x ==> is_quote(#[trigger] s@[i]),
        decreases q - x,
    {
        x = x + 1;
    }
    proof {
        assert forall|i: int| 0 <= i < x - p implies is_quote(#[trigger] u[i]) by {
            assert(u[i] == s@[p + i]);
        }
        if x < q {
            assert(u[x - p] == s@[x as int]);
        }
        lemma_lead_quotes(u, x - p);
    }
    let ghost tt = u.skip(lead_quotes(u) as int);
    assert(tt =~= s@.subrange(x as int, q as int));
    let mut y: usize = q;
    while y > x && char_is_quote(s[y - 1])
        invariant
            x <= y <= q <= s@.len(),
            forall|i: int| y <= i < q ==> is_quote(#[trigger] s@[i]),
        decreases y - x,
    {
        y = y - 1;
    }
    proof {
        assert forall|i: int| tt.len() - (q - y) <= i < tt.len() implies is_quote(#[trigger] tt[i]) by {
            assert(tt[i] == s@[x + i]);
        }
        if q - y < tt.len() {
            assert(tt[tt.len() - (q - y) - 1] == s@[y - 1]);
        }
        lemma_trail_quotes(tt, q - y);
        assert(trim_quotes(u) =~= s@.subrange(x as int, y as int));
    }
    let v = crate::text::slice_chars(s, x, y);
    crate::text::eq_str(&v, "zorilla") || crate::text::starts_with_str(&v, "zorilla-")
}

/// Whether a YAML line is an `id:` entry naming a zorilla hook (`zorilla` or
/// `zorilla-*`).
pub fn yaml_id_names_zorilla(line: &str) -> (r: bool)
    ensures
        r == yaml_id_names(line@),
{
    let cs = crate::text::str_chars(line);
    proof {
        assert(cs@.subrange(0, cs@.len() as int) =~= cs@);
    }
    yaml_id_range(&cs, 0, cs.len())
}

/// The part of a line before its first `#`.
pub open spec fn before_hash(line: Seq<char>) -> Seq<char> {
    if line.contains('#') {
        line.take(first_index_of(line, '#'))
    } else {
        line
    }
}

/// A pre-commit line that wires up zorilla: outside its comment it names the hook
/// repository or is a zorilla hook `id:`.
pub open spec fn pre_commit_line_refers(line: Seq<char>) -> bool {
    contains_seq(before_hash(line), "mojzis/zorilla"@) || yaml_id_names(before_hash(line))
}

/// Whether a `.pre-commit-config.yaml` text wires up zorilla on some line.
pub fn pre_commit_references_zorilla(contents: &str) -> (r: bool)
    ensures
        r == exists|i: int| 0 <= i < lines(contents@).len() && pre_commit_line_refers(#[trigger] lines(contents@)[i]),
{
    let cs = crate::text::str_chars(contents);
    let ls = lines_of(&cs);
    let ghost big = lines(contents@);
    let mut k: usize = 0;
    while k < ls.len()
        invariant
            big == lines(contents@),
            ls@.len() == big.len(),
            forall|i: int| 0 <= i < ls@.len() ==> #[trigger] ls@[i]@ == big[i],
            0 <= k <= ls@.len(),
            forall|i: int| 0 <= i < k ==> !pre_commit_line_refers(#[trigger] big[i]),
        decreases ls.len() - k,
    {
        let line = &ls[k];
        let ghost ln = line@;
        assert(line@.len() == line.len());
        let end: usize = match crate::text::find_char_from(line, '#', 0) {
            Some(h) => {
                proof {
                    crate::text::lemma_first_index_of(ln, '#', h as int);
                }
                h
            },
            None => {
                proof {
                    assert(!ln.contains('#'));
                    assert(ln.take(ln.len() as int) =~= ln);
                }
                line.len()
            },
        };
        let pre = crate::text::slice_chars(line, 0, end);
        proof {
            assert(pre@ == before_hash(ln));
            assert(pre@.subrange(0, pre@.len() as int) =~= pre@);
        }
        if crate::text::contains_str(&pre, "mojzis/zorilla") || yaml_id_range(&pre, 0, pre.len()) {
            assert(pre_commit_line_refers(lines(contents@)[k as int]));
            return true;
        }
        k = k + 1;
    }
    false
}


/// A TOML table's entries, two levels deep: each key with, when its value is a
/// table, that table's keys and whether each of their values is a table.
pub open spec fn shape_view(d: Seq<(String, Option<Vec<(String, bool)>>)>) -> Seq<(Seq<char>, Option<Seq<(Seq<char>, bool)>>)> {
    d.map_values(|e: (String, Option<Vec<(String, bool)>>)| (e.0@, inner_view(e.1)))
}

pub open spec fn inner_view(t: Option<Vec<(String, bool)>>) -> Option<Seq<(Seq<char>, bool)>> {
    match t {
        Some(v) => Some(v@.map_values(|x: (String, bool)| (x.0@, x.1))),
        None => None,
    }
}

/// The shape (see [`shape_view`]) of the TOML document `text` as the toml crate
/// reads it; `None` when it does not parse.
pub uninterp spec fn toml_shape(text: Seq<char>) -> Option<Seq<(Seq<char>, Option<Seq<(Seq<char>, bool)>>)>>;

/// `toml::from_str::<toml::Table>` of `contents`, each entry converted with
/// `Value::as_table` and, below it, `Value::is_table`. Claimed: the result is
/// [`toml_shape`] of the text, a function of the text alone.
#[verifier::external_body]
fn parse_toml_document(contents: &str) -> (r: Option<Vec<(String, Option<Vec<(String, bool)>>)>>)
    ensures
        match r {
            Some(d) => toml_shape(contents@) == Some(shape_view(d@)),
            None => toml_shape(contents@) is None,
        },
{
    toml::from_str::<toml::Table>(contents).ok().map(|doc| {
        doc.iter().map(|(k, v)| (k.clone(), v.as_table().map(|t| t.iter().map(|(k2, v2)| (k2.clone(), v2.is_table())).collect())))
            .collect()
    })
}

/// The entry `e` of a document is `tool`, a table with a `zorilla` entry that is
/// itself a table.
pub open spec fn tool_entry_names_zorilla(e: (Seq<char>, Option<Seq<(Seq<char>, bool)>>)) -> bool {
    &&& e.0 == "tool"@
    &&& match e.1 {
        Some(t) => exists|j: int| 0 <= j < t.len() && (#[trigger] t[j]).0 == "zorilla"@ && t[j].1,
        None => false,
    }
}

/// A document (see [`shape_view`]) carries a `[tool.zorilla]` table. Keys of a
/// table are distinct, so "some `tool` entry" is the `tool` entry.
pub open spec fn has_tool_zorilla(d: Seq<(Seq<char>, Option<Seq<(Seq<char>, bool)>>)>) -> bool {
    exists|i: int| 0 <= i < d.len() && tool_entry_names_zorilla(#[trigger] d[i])
}

/// Whether `t` (the value of a `tool` entry, when a table) has a `zorilla` entry
/// that is a table.
fn table_has_zorilla(t: &Vec<(String, bool)>) -> (r: bool)
    ensures
        r == exists|j: int| 0 <= j < t@.len() && (#[trigger] inner_view(Some(*t))->0[j]).0 == "zorilla"@ && inner_view(Some(*t))->0[j].1,
{
    let ghost v = inner_view(Some(*t))->0;
    let mut j: usize = 0;
    while j < t.len()
        invariant
            v == inner_view(Some(*t))->0,
            v.len() == t@.len(),
            j <= t@.len(),
            forall|x: int| 0 <= x < j ==> !((#[trigger] v[x]).0 == "zorilla"@ && v[x].1),
        decreases t.len() - j,
    {
        assert(v[j as int] == (t@[j as int].0@, t@[j as int].1));
        if t[j].1 && crate::text::str_eq(t[j].0.as_str(), "zorilla") {
            return true;
        }
        j = j + 1;
    }
    false
}

/// Whether a `pyproject.toml` with text `contents` carries a `[tool.zorilla]`
/// table. Parsed, not grepped: `tool.zorilla` in a comment or a string is not
/// configuration; a text that does not parse carries none.
pub fn pyproject_has_zorilla_table(contents: &str) -> (r: bool)
    ensures
        r == (toml_shape(contents@) matches Some(d) && has_tool_zorilla(d)),
{
    match parse_toml_document(contents) {
        None => false,
        Some(doc) => {
            let ghost d = shape_view(doc@);
            let mut i: usize = 0;
            while i < doc.len()
                invariant
                    d == shape_view(doc@),
                    toml_shape(contents@) == Some(d),
                    d.len() == doc@.len(),
                    i <= doc@.len(),
                    forall|x: int| 0 <= x < i ==> !tool_entry_names_zorilla(#[trigger] d[x]),
                decreases doc.len() - i,
            {
                assert(d[i as int] == (doc@[i as int].0@, inner_view(doc@[i as int].1)));
                if crate::text::str_eq(doc[i].0.as_str(), "tool") {
                    match &doc[i].1 {
                        Some(t) => {
                            if table_has_zorilla(t) {
                                proof {
                                    assert(doc@[i as int].1 == Some(*t));
                                    assert(d[i as int].1 == inner_view(Some(*t)));
                                    assert(tool_entry_names_zorilla(d[i as int]));
                                }
                                return true;
                            }
                        },
                        None => {},
                    }
                }
                i = i + 1;
            }
            false
        },
    }
}

/// What one directory on the way up from the working directory holds, as far as
/// detection cares.
pub struct DirProbe {
    pub has_zorilla_toml: bool,
    /// Its `pyproject.toml` carries a `[tool.zorilla]` table.
    pub pyproject_has_table: bool,
    /// Its `.pre-commit-config.yaml` wires up zorilla.
    pub pre_commit_refers: bool,
    /// It is the root of a git checkout.
    pub has_git: bool,
}

/// The source [`detect_in`] finds in one directory.
pub open spec fn source_in(p: DirProbe) -> Option<ConfigSource> {
    if p.has_zorilla_toml {
        Some(ConfigSource::ZorillaToml)
    } else if p.pyproject_has_table {
        Some(ConfigSource::PyProject)
    } else if p.pre_commit_refers {
        Some(ConfigSource::PreCommit)
    } else {
        None
    }
}

/// Detection over the directories `ps`, nearest first: the first directory
/// with a source answers; a checkout root without one ends the search.
pub open spec fn detect_spec(ps: Seq<DirProbe>) -> Option<ConfigSource>
    decreases ps.len(),
{
    if ps.len() == 0 {
        None
    } else if source_in(ps[0]) is Some {
        source_in(ps[0])
    } else if ps[0].has_git {
        None
    } else {
        detect_spec(ps.drop_first())
    }
}

/// Where zorilla is configured, searching upward: `dirs` lists what each
/// directory holds, from the working directory up. The search stops at the
/// root of the git checkout it starts in.
pub fn detect(dirs: &Vec<DirProbe>) -> (r: Option<ConfigSource>)
    ensures
        r == detect_spec(dirs@),
{
    let mut k: usize = 0;
    assert(dirs@.skip(0) =~= dirs@);
    while k < dirs.len()
        invariant
            k <= dirs@.len(),
            detect_spec(dirs@) == detect_spec(dirs@.skip(k as int)),
        decreases dirs.len() - k,
    {
        let p = &dirs[k];
        proof {
            assert(dirs@.skip(k as int)[0] == dirs@[k as int]);
            assert(dirs@.skip(k as int).drop_first() =~= dirs@.skip(k + 1));
        }
        let found = detect_in(p.has_zorilla_toml, p.pyproject_has_table, p.pre_commit_refers);
        if found.is_some() {
            return found;
        }
        if p.has_git {
            return None;
        }
        k = k + 1;
    }
    None
}

} // verus!
