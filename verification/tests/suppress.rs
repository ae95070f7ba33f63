use zorilla::suppress::Suppressions;
use zorilla::tree::parse;

fn from_tree(source: &str) -> Suppressions {
    let tree = parse(source).expect("test source should parse");
    Suppressions::from_tree(&tree, source)
}

#[test]
fn empty_suppresses_nothing() {
    let s = Suppressions::empty();
    assert!(!s.is_suppressed(1, "ZR001"));
    assert!(!s.is_suppressed(42, "ZR999"));
    assert!(!s.suppresses_code("ZR001"));
}

#[test]
fn from_source_with_no_directives_is_empty() {
    let s = Suppressions::from_source("def test_x():\n    assert True\n# unrelated comment\n");
    assert!(!s.suppresses_code("ZR001"));
    assert!(!s.is_suppressed(1, "ZR001"));
    assert!(!s.is_suppressed(3, "ZR001"));
}

#[test]
fn ignore_file_at_top_short_circuits_every_line() {
    let s = Suppressions::from_source(
        "# zorilla: ignore-file\ndef test_x():\n    if True:\n        assert True\n",
    );
    assert!(s.suppresses_code("ZR001"));
    assert!(s.is_suppressed(99, "ZR001"));
    assert!(s.is_suppressed(1, "ZR007"));
}

#[test]
fn ignore_file_inline_after_code_still_counts() {
    // The directive doesn't have to be the only thing on its line.
    let s = Suppressions::from_source("import os  # zorilla: ignore-file\n");
    assert!(s.suppresses_code("ZR001"));
}

#[test]
fn ignore_file_with_trailing_text_still_counts() {
    let s = Suppressions::from_source("# zorilla: ignore-file (legacy fixture)\n");
    assert!(s.suppresses_code("ZR001"));
}

#[test]
fn line_ignore_drops_findings_on_that_line_only() {
    let s = Suppressions::from_source(
        "def test_x():\n    if True:  # zorilla: ignore\n        assert True\n",
    );
    assert!(s.is_suppressed(2, "ZR001"));
    assert!(!s.is_suppressed(3, "ZR001"));
    assert!(!s.is_suppressed(1, "ZR001"));
}

#[test]
fn line_ignore_with_specific_code_only_drops_that_code() {
    let s = Suppressions::from_source("    if True:  # zorilla: ignore[ZR001]\n");
    assert!(s.is_suppressed(1, "ZR001"));
    assert!(!s.is_suppressed(1, "ZR002"));
}

#[test]
fn line_ignore_with_multiple_codes_in_one_bracket() {
    let s = Suppressions::from_source("x = 1  # zorilla: ignore[ZR001,ZR003]\n");
    assert!(s.is_suppressed(1, "ZR001"));
    assert!(s.is_suppressed(1, "ZR003"));
    assert!(!s.is_suppressed(1, "ZR002"));
}

#[test]
fn ignore_codes_are_case_insensitive_when_parsed() {
    let s = Suppressions::from_source("x = 1  # zorilla: ignore[zr001, Zr002, ZR003]\n");
    assert!(s.is_suppressed(1, "ZR001"));
    assert!(s.is_suppressed(1, "ZR002"));
    assert!(s.is_suppressed(1, "ZR003"));
    // And lookup is also case-insensitive (lower-case input gets
    // uppercased before lookup).
    assert!(s.is_suppressed(1, "zr001"));
}

#[test]
fn ignore_codes_tolerate_whitespace_between_entries() {
    let s = Suppressions::from_source("x = 1  # zorilla:   ignore[  ZR001 ,   ZR003  ]\n");
    assert!(s.is_suppressed(1, "ZR001"));
    assert!(s.is_suppressed(1, "ZR003"));
    assert!(!s.is_suppressed(1, "ZR002"));
}

#[test]
fn ignore_wrong_code_does_not_suppress_other_codes() {
    let s = Suppressions::from_source("if True:  # zorilla: ignore[ZR002]\n");
    assert!(s.is_suppressed(1, "ZR002"));
    assert!(!s.is_suppressed(1, "ZR001"));
}

#[test]
fn first_hash_wins_when_two_directives_share_a_line() {
    // Pins the documented parser limitation: `from_source` locks onto
    // the FIRST `#` on each line and treats everything after it as one
    // comment. So `# zorilla: ignore[ZR001]  # zorilla: ignore` is
    // parsed as a bracketed directive for ZR001 only — the trailing
    // bare `ignore` is consumed inside the bracket scan and silently
    // discarded. ZR002 must therefore stay un-suppressed; if a future
    // change starts honouring the second directive this test will
    // catch it.
    let s = Suppressions::from_source("x = 1  # zorilla: ignore[ZR001]  # zorilla: ignore\n");
    assert!(s.is_suppressed(1, "ZR001"));
    assert!(!s.is_suppressed(1, "ZR002"));
}

#[test]
fn duplicate_directives_on_same_logical_line_merge_codes() {
    // Construct a line whose comment text contains two `zorilla:`
    // directives separated by a non-comment delimiter — actually
    // impossible in pure Python, since `#` runs to end-of-line. The
    // realistic merge is two source lines whose findings happen to
    // both report on the SAME reported line, but suppression is
    // strictly tied to comment location.
    //
    // The merge code path is still exercised programmatically here:
    let mut s = Suppressions::from_source("x = 1  # zorilla: ignore[ZR001]\n");
    // Manually merge another suppression into the same line via
    // public surface (re-parse a single-line source with a different
    // code, then bolt it onto the existing map).
    let other = Suppressions::from_source("y = 2  # zorilla: ignore[ZR002]\n");
    // Line 1 from `other` carries ZR002. Merge it into `s`.
    for (line, sup) in other.line_suppressions() {
        s.merge_into(line, sup);
    }
    assert!(s.is_suppressed(1, "ZR001"));
    assert!(s.is_suppressed(1, "ZR002"));
    assert!(!s.is_suppressed(1, "ZR003"));
}

#[test]
fn merge_all_dominates_codes() {
    let mut s = Suppressions::from_source("x = 1  # zorilla: ignore[ZR001]\n");
    let other = Suppressions::from_source("y = 2  # zorilla: ignore\n");
    for (line, sup) in other.line_suppressions() {
        s.merge_into(line, sup);
    }
    // After merging an `All` onto an existing `Codes(...)`, the line
    // should suppress every code, not just ZR001.
    assert!(s.is_suppressed(1, "ZR999"));
}

#[test]
fn unrecognised_directives_are_ignored() {
    let s = Suppressions::from_source("# zorilla: maybe-later\n# something else\n");
    assert!(!s.suppresses_code("ZR001"));
    assert!(!s.is_suppressed(1, "ZR001"));
    assert!(!s.is_suppressed(2, "ZR001"));
}

#[test]
fn empty_brackets_are_a_noop() {
    // Better to do nothing than to silently treat `ignore[]` as
    // `ignore` and suppress the whole line.
    let s = Suppressions::from_source("x = 1  # zorilla: ignore[]\n");
    assert!(!s.is_suppressed(1, "ZR001"));
}

#[test]
fn bare_ignorefoo_token_does_not_match_ignore() {
    // `ignorefoo` must not be mistaken for `ignore`.
    let s = Suppressions::from_source("x = 1  # zorilla: ignorefoo\n");
    assert!(!s.is_suppressed(1, "ZR001"));
}

#[test]
fn ignore_file_with_brackets_only_suppresses_listed_code() {
    let s = Suppressions::from_source("# zorilla: ignore-file[ZR005]\n");
    assert!(s.suppresses_code("ZR005"));
    assert!(s.is_suppressed(1, "ZR005"));
    assert!(s.is_suppressed(42, "ZR005"));
}

#[test]
fn ignore_file_without_brackets_still_suppresses_all() {
    // Back-compat: bare `# zorilla: ignore-file` continues to drop
    // every code in the file.
    let s = Suppressions::from_source("# zorilla: ignore-file\n");
    assert!(s.suppresses_code("ZR001"));
    assert!(s.suppresses_code("ZR005"));
    assert!(s.suppresses_code("ZR999"));
}

#[test]
fn ignore_file_brackets_do_not_suppress_other_codes() {
    let s = Suppressions::from_source("# zorilla: ignore-file[ZR005]\n");
    assert!(!s.suppresses_code("ZR001"));
    assert!(!s.is_suppressed(1, "ZR001"));
}

#[test]
fn ignore_file_brackets_codes_are_case_insensitive() {
    let s = Suppressions::from_source("# zorilla: ignore-file[zr005, Zr007]\n");
    assert!(s.suppresses_code("ZR005"));
    assert!(s.suppresses_code("ZR007"));
    // Lookup is case-insensitive too.
    assert!(s.suppresses_code("zr005"));
    assert!(s.is_suppressed(3, "ZR005"));
    assert!(s.is_suppressed(3, "ZR007"));
    assert!(!s.is_suppressed(3, "ZR001"));
}

#[test]
fn ignore_file_empty_brackets_are_a_noop() {
    // Better to do nothing than to silently treat `ignore-file[]` as
    // `ignore-file` and suppress every code.
    let s = Suppressions::from_source("# zorilla: ignore-file[]\n");
    assert!(!s.suppresses_code("ZR001"));
    assert!(!s.suppresses_code("ZR005"));
    assert!(!s.is_suppressed(1, "ZR005"));
}

#[test]
fn ignore_file_with_space_before_brackets_does_not_widen_to_all() {
    // Regression guard: a user typing `# zorilla: ignore-file [ZR005]`
    // (with a space between the keyword and the bracket) was previously
    // misparsed as bare `ignore-file` — i.e. dropping every code rather
    // than only ZR005. Tolerate the whitespace and honour the brackets.
    let s = Suppressions::from_source("# zorilla: ignore-file [ZR005]\n");
    assert!(s.suppresses_code("ZR005"));
    assert!(!s.suppresses_code("ZR001"));
}

#[test]
fn ignore_with_space_before_brackets_does_not_widen_to_all() {
    // Same hazard at line scope: `# zorilla: ignore [ZR001]` was
    // previously misparsed as bare `ignore`, dropping every code on the
    // line rather than only ZR001.
    let s = Suppressions::from_source("x = 1  # zorilla: ignore [ZR001]\n");
    assert!(s.is_suppressed(1, "ZR001"));
    assert!(!s.is_suppressed(1, "ZR002"));
}

#[test]
fn from_tree_matches_from_source_on_single_line_statements() {
    let src = "def test_x():\n    if True:  # zorilla: ignore[ZR001]\n        assert True\n";
    let s = from_tree(src);
    assert!(s.is_suppressed(2, "ZR001"));
    assert!(!s.is_suppressed(2, "ZR002"));
    assert!(!s.is_suppressed(1, "ZR001"));
    assert!(!s.is_suppressed(3, "ZR001"));
}

#[test]
fn directive_on_closing_bracket_line_reaches_the_statement_start() {
    // What `ruff format` / `black` produce from
    // `assert cond  # zorilla: ignore[ZR004] -- <long reason>` once the
    // line is over the width limit: the comment lands on the `)` line.
    // ZR004 reports at the `assert` keyword, one line up.
    let src = "\
def test_x():
    assert (
        \"Server ready\" in output
    )  # zorilla: ignore[ZR004] -- startup contract
    assert other
";
    let s = from_tree(src);
    assert!(s.is_suppressed(2, "ZR004"), "the `assert (` line is part of the statement");
    assert!(s.is_suppressed(3, "ZR004"));
    assert!(s.is_suppressed(4, "ZR004"));
    assert!(!s.is_suppressed(2, "ZR001"), "the bracketed code list still narrows the scope");
    assert!(!s.is_suppressed(5, "ZR004"), "the next statement is not covered");
    assert!(!s.is_suppressed(1, "ZR004"), "the `def` line is not covered");
}

#[test]
fn directive_on_opening_line_reaches_a_literal_on_an_inner_line() {
    // ZR005 reports at the string literal, which sits on the middle
    // line of the call. A directive on either bracket line covers it.
    let src = "\
def test_x(client):
    response = client.fetch(  # zorilla: ignore[ZR005] -- local double
        \"https://api.example.com/v1\",
    )
    assert response.ok
";
    let s = from_tree(src);
    assert!(s.is_suppressed(3, "ZR005"));
    assert!(s.is_suppressed(2, "ZR005"));
    assert!(s.is_suppressed(4, "ZR005"));
    assert!(!s.is_suppressed(5, "ZR005"));
}

#[test]
fn compound_statement_header_is_covered_but_its_body_is_not() {
    let src = "\
def test_x(paths):
    for path in (
        paths.a,
        paths.b,
    ):  # zorilla: ignore[ZR001] -- fixture setup
        path.touch()
        assert path.exists()
";
    let s = from_tree(src);
    assert!(s.is_suppressed(2, "ZR001"), "the `for` line anchors ZR001");
    assert!(s.is_suppressed(5, "ZR001"));
    assert!(!s.is_suppressed(6, "ZR001"), "the loop body is its own statement");
    assert!(!s.is_suppressed(7, "ZR001"));
}

#[test]
fn bare_ignore_inside_a_statement_covers_every_code_on_every_line_of_it() {
    let src = "\
def test_x(client):
    if client.get(
        \"https://api.example.com/v1\"
    ).ok:  # zorilla: ignore -- probe
        assert True
";
    let s = from_tree(src);
    assert!(s.is_suppressed(2, "ZR001"));
    assert!(s.is_suppressed(3, "ZR005"));
    assert!(!s.is_suppressed(5, "ZR001"));
}

#[test]
fn directives_on_two_lines_of_one_statement_merge() {
    let src = "\
def test_x():
    assert (  # zorilla: ignore[ZR004]
        \"https://api.example.com/v1\" in seen
    )  # zorilla: ignore[ZR005]
";
    let s = from_tree(src);
    assert!(s.is_suppressed(2, "ZR004"));
    assert!(s.is_suppressed(2, "ZR005"));
    assert!(s.is_suppressed(3, "ZR004"));
    assert!(s.is_suppressed(3, "ZR005"));
    assert!(!s.is_suppressed(3, "ZR001"));
}

#[test]
fn brackets_inside_strings_do_not_open_a_statement_span() {
    // A `(` in a string literal must not glue the next statement onto
    // this one and let the directive leak across.
    let src = "\
def test_x():
    label = \"open (\"  # zorilla: ignore[ZR005]
    if label:
        assert label
";
    let s = from_tree(src);
    assert!(s.is_suppressed(2, "ZR005"));
    assert!(!s.is_suppressed(3, "ZR005"));
    assert!(!s.is_suppressed(3, "ZR001"));
}

#[test]
fn directive_on_the_line_above_a_statement_still_does_not_reach_it() {
    // Statement scope widens within a statement only; "next line"
    // semantics remain deliberately unimplemented.
    let src = "\
def test_x():
    # zorilla: ignore[ZR001]
    if True:
        assert True
";
    let s = from_tree(src);
    assert!(!s.is_suppressed(3, "ZR001"));
}

#[test]
fn directive_in_a_decorator_does_not_reach_the_def_line() {
    let src = "\
@patch(
    \"mod.a\"
)  # zorilla: ignore[ZR006]
def test_x(a):
    assert a
";
    let s = from_tree(src);
    assert!(s.is_suppressed(1, "ZR006"), "ZR006 anchors on the first `@patch` line");
    assert!(!s.is_suppressed(4, "ZR006"));
}

#[test]
fn from_tree_with_no_line_directives_widens_nothing() {
    let src = "def test_x():\n    assert (\n        1\n    )\n";
    let s = from_tree(src);
    assert!(s.line_suppressions().is_empty());
    assert!(!s.is_suppressed(2, "ZR004"));
    assert!(!s.suppresses_code("ZR004"));
}

#[test]
fn an_unclosed_bracket_degrades_to_strict_per_line() {
    // `parse` returns a tree with `ERROR` nodes rather than failing, so
    // this reaches `bracket_spans`. Nothing after the unclosed `(` can
    // be widened — tree-sitter folds the rest of the file into the
    // error node — but the directive keeps its own line, and no span
    // is invented across the broken statement.
    let src = "\
def test_x():
    broken = f(
    ok = 1
    assert (
        \"https://api.example.com/v1\" in seen
    )  # zorilla: ignore[ZR005]
";
    let s = from_tree(src);
    assert!(s.is_suppressed(6, "ZR005"), "the directive's own line always counts");
    assert!(!s.is_suppressed(5, "ZR005"), "no widening past an unclosed bracket");
    assert!(!s.is_suppressed(2, "ZR005"), "the broken statement is not covered");
}

#[test]
fn file_level_directives_are_unaffected_by_statement_scope() {
    let src = "# zorilla: ignore-file[ZR005]\ndef test_x():\n    assert (\n        1\n    )\n";
    let s = from_tree(src);
    assert!(s.suppresses_code("ZR005"));
    assert!(!s.is_suppressed(3, "ZR004"));
}
