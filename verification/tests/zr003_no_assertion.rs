use zorilla::config::{Config, RuleConfig};
use zorilla::report::Finding;
use zorilla::rules::zr003_no_assertion::{NoAssertionRule, MESSAGE};
use zorilla::rules::Context;
use zorilla::suppress::Suppressions;
use zorilla::tree::parse;

fn run(src: &str) -> Vec<Finding> {
    run_with(src, &Config::default().rule_config())
}

fn run_with(src: &str, config: &RuleConfig) -> Vec<Finding> {
    let tree = parse(src).unwrap();
    let suppressions = Suppressions::empty();
    let ctx = Context { file: "example.py", source: src, tree: &tree, config, suppressions: &suppressions };
    let mut out = Vec::new();
    NoAssertionRule.check(&ctx, &mut out);
    out
}

#[test]
fn fires_on_test_with_no_assertion() {
    let src = "\
def test_nothing():
    do_something()
    do_more()
";
    let out = run(src);
    assert_eq!(out.len(), 1);
    assert_eq!(out[0].code, "ZR003");
    assert_eq!(out[0].message, MESSAGE);
    assert_eq!(out[0].line, 1);
    assert_eq!(out[0].column, 1);
}

#[test]
fn does_not_fire_on_bare_assert() {
    let src = "\
def test_ok():
    assert value() == 1
";
    assert!(run(src).is_empty());
}

#[test]
fn does_not_fire_on_message_assert() {
    let src = "\
def test_ok():
    assert value() == 1, \"should be 1\"
";
    assert!(run(src).is_empty());
}

#[test]
fn does_not_fire_on_pytest_raises_context_manager() {
    let src = "\
import pytest

def test_raises():
    with pytest.raises(ValueError):
        boom()
";
    assert!(run(src).is_empty());
}

#[test]
fn does_not_fire_on_pytest_warns_context_manager() {
    let src = "\
import pytest

def test_warns():
    with pytest.warns(DeprecationWarning):
        legacy()
";
    assert!(run(src).is_empty());
}

#[test]
fn does_not_fire_on_custom_raises_context_manager() {
    // Documented behavior: the `raises`/`warns` match is by final
    // identifier, not by `pytest.` prefix. A user-defined
    // `foo.raises(...)` context manager still suppresses ZR003.
    let src = "\
def test_custom():
    with foo.raises(ValueError):
        boom()
";
    assert!(run(src).is_empty());
}

#[test]
fn does_not_fire_on_builtin_assertion_helper_call() {
    let src = "\
class TestX:
    def test_uses_helper(self):
        self.assertEqual(1, 1)
";
    assert!(run(src).is_empty());
}

#[test]
fn does_not_fire_on_assert_inside_nested_helper() {
    // Nested inline helper with an assert — the enclosing test
    // still counts as asserting, per ZR001/ZR002 convention.
    let src = "\
def test_with_helper():
    def inner():
        assert True
    inner()
";
    assert!(run(src).is_empty());
}

#[test]
fn zr003_no_assertion_fires_on_method_of_test_class() {
    let src = "\
class TestNothing:
    def test_method(self):
        do_work(self)
";
    let out = run(src);
    assert_eq!(out.len(), 1);
    assert_eq!(out[0].line, 2);
}

#[test]
fn does_not_fire_on_non_test_function() {
    let src = "\
def _helper():
    do_work()

def test_ok():
    assert True
";
    assert!(run(src).is_empty());
}

#[test]
fn does_not_fire_on_assert_helper_with_underscore_prefix() {
    // Python projects routinely delegate complex setup-and-check
    // logic to helpers named `assert_<thing>` (e.g.
    // `assert_css_class_present`). The test calls such a helper —
    // ZR003 must recognise the snake-case prefix as an assertion
    // and stay silent.
    let src = "\
def test_uses_assert_helper():
    assert_css_class_present(html, \"foo\")
";
    assert!(run(src).is_empty());
}

#[test]
fn does_not_fire_on_private_underscore_assert_helper() {
    // Same convention as `assert_…`, but the helper is module-
    // private (`_assert_invariant`). The leading underscore is
    // common for internal helpers; both shapes must be accepted.
    let src = "\
def test_uses_private_assert_helper():
    _assert_invariant(state)
";
    assert!(run(src).is_empty());
}

#[test]
fn still_fires_on_call_named_assertion_without_underscore() {
    // Regression guard against being too lax: `assertion(x)` shares
    // a prefix with `assert_*` but lacks the trailing underscore.
    // It must NOT count as an assertion helper — otherwise we'd
    // start matching arbitrary identifiers like `assertively()`
    // and turn ZR003 into a no-op for anything starting with
    // `assert`.
    let src = "\
def test_calls_assertion():
    assertion(x)
";
    let out = run(src);
    assert_eq!(out.len(), 1);
    assert_eq!(out[0].code, "ZR003");
    assert_eq!(out[0].message, MESSAGE);
    assert_eq!(out[0].line, 1);
    assert_eq!(out[0].column, 1);
}

#[test]
fn extra_helpers_suppress_finding() {
    // With `expect` registered as an extra helper, the test looks
    // asserting and should not fire.
    let src = "\
def test_custom():
    expect(value()).to_be(1)
";
    let mut cfg = Config::default().rule_config();
    cfg.zr003.helpers.push("to_be".to_string());
    assert!(run_with(src, &cfg).is_empty());
}

#[test]
fn zr003_no_assertion_does_not_fire_on_pytest_mark_skip() {
    // Skipped tests don't execute, so "no assertion" doesn't matter —
    // esl's 50 `@pytest.mark.skip` placeholder stubs ZR007 already
    // suppresses re-emerge here without this gate. Mirrors ZR007.
    let src = "\
@pytest.mark.skip
def test_x():
    pass
";
    assert!(run(src).is_empty());
}

#[test]
fn zr003_no_assertion_does_not_fire_on_pytest_mark_skip_with_reason() {
    let src = "\
@pytest.mark.skip(reason=\"todo\")
def test_x():
    do_something()
";
    assert!(run(src).is_empty());
}

#[test]
fn zr003_no_assertion_does_not_fire_on_pytest_mark_xfail() {
    let src = "\
@pytest.mark.xfail
def test_x():
    do_something()
";
    assert!(run(src).is_empty());
}

#[test]
fn zr003_no_assertion_does_not_fire_on_method_of_class_decorated_with_pytest_mark_skip() {
    // Class-level `@pytest.mark.skip` suppresses every method body
    // — esl's 50 placeholder-stub pattern. Mirrors ZR007.
    let src = "\
@pytest.mark.skip
class TestX:
    def test_y(self):
        do_something()
";
    assert!(run(src).is_empty());
}

#[test]
fn zr003_no_assertion_fires_on_pytest_mark_skipif() {
    // `skipif` is conditional — the body runs on the non-skipped
    // path and must still assert. Matches ZR007's decision.
    let src = "\
@pytest.mark.skipif(True, reason=\"x\")
def test_x():
    do_something()
";
    let out = run(src);
    assert_eq!(out.len(), 1);
    assert_eq!(out[0].code, "ZR003");
}

#[test]
fn multiple_test_functions_each_get_their_own_finding() {
    let src = "\
def test_a():
    do()

def test_b():
    assert True

def test_c():
    log()
";
    let out = run(src);
    assert_eq!(out.len(), 2);
    assert_eq!(out[0].line, 1);
    assert_eq!(out[1].line, 7);
}
