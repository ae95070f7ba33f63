use zorilla::config::{Config, RuleConfig};
use zorilla::report::Finding;
use zorilla::rules::zr007_empty_test::{EmptyTestRule, MESSAGE};
use zorilla::rules::Context;
use zorilla::suppress::Suppressions;
use zorilla::tree::parse;

fn run(src: &str) -> Vec<Finding> {
    run_with(src, &Config::default().rule_config())
}

fn run_with(src: &str, config: &RuleConfig) -> Vec<Finding> {
    let tree = parse(src).unwrap();
    let suppressions = Suppressions::empty();
    let ctx = Context { file: "example.py", source: src, tree: &tree, config, suppressions: &suppressions };
    let mut out = Vec::new();
    EmptyTestRule.check(&ctx, &mut out);
    out
}

#[test]
fn fires_on_pass_only_body() {
    let src = "\
def test_todo():
    pass
";
    let out = run(src);
    assert_eq!(out.len(), 1);
    assert_eq!(out[0].code, "ZR007");
    assert_eq!(out[0].message, MESSAGE);
    assert_eq!(out[0].line, 1);
    assert_eq!(out[0].column, 1);
}

#[test]
fn fires_on_ellipsis_only_body() {
    let src = "\
def test_todo():
    ...
";
    let out = run(src);
    assert_eq!(out.len(), 1);
}

#[test]
fn fires_on_docstring_only_body() {
    let src = "\
def test_todo():
    \"\"\"Will verify the happy path.\"\"\"
";
    let out = run(src);
    assert_eq!(out.len(), 1);
}

#[test]
fn fires_on_docstring_plus_pass() {
    let src = "\
def test_todo():
    \"\"\"Explain.\"\"\"
    pass
";
    let out = run(src);
    assert_eq!(out.len(), 1);
}

#[test]
fn does_not_fire_on_real_assertion() {
    let src = "\
def test_real():
    assert 1 == 1
";
    assert!(run(src).is_empty());
}

#[test]
fn does_not_fire_on_body_with_call() {
    let src = "\
def test_calls():
    do_work()
";
    assert!(run(src).is_empty());
}

#[test]
fn does_not_fire_on_docstring_plus_real_statement() {
    let src = "\
def test_mixed():
    \"\"\"Doc.\"\"\"
    assert True
";
    assert!(run(src).is_empty());
}

#[test]
fn fires_on_each_of_multiple_empty_tests() {
    let src = "\
def test_a():
    pass


def test_b():
    ...
";
    let out = run(src);
    assert_eq!(out.len(), 2);
    assert_eq!(out[0].line, 1);
    assert_eq!(out[1].line, 5);
}

#[test]
fn does_not_fire_on_empty_non_test_function() {
    let src = "\
def _helper():
    pass


def test_real():
    assert True
";
    assert!(run(src).is_empty());
}

#[test]
fn zr007_empty_test_fires_on_method_of_test_class() {
    let src = "\
class TestThing:
    def test_empty(self):
        pass
";
    let out = run(src);
    assert_eq!(out.len(), 1);
    assert_eq!(out[0].line, 2);
}

#[test]
fn does_not_fire_on_async_test_with_await() {
    let src = "\
async def test_awaits():
    await something()
";
    assert!(run(src).is_empty());
}

#[test]
fn zr007_empty_test_does_not_fire_on_pytest_mark_skip() {
    let src = "\
@pytest.mark.skip
def test_x():
    pass
";
    assert!(run(src).is_empty());
}

#[test]
fn zr007_empty_test_does_not_fire_on_pytest_mark_xfail() {
    let src = "\
@pytest.mark.xfail
def test_x():
    pass
";
    assert!(run(src).is_empty());
}

#[test]
fn does_not_fire_on_pytest_mark_skip_call_form_with_reason() {
    let src = "\
@pytest.mark.skip(reason=\"todo\")
def test_x():
    pass
";
    assert!(run(src).is_empty());
}

#[test]
fn does_not_fire_on_pytest_mark_xfail_call_form_strict() {
    let src = "\
@pytest.mark.xfail(strict=True)
def test_x():
    pass
";
    assert!(run(src).is_empty());
}

#[test]
fn zr007_empty_test_fires_on_pytest_mark_skipif() {
    // `skipif` is conditional — the body is expected to do real work
    // on the non-skipped path, so an empty body still flags.
    let src = "\
@pytest.mark.skipif(True, reason=\"x\")
def test_x():
    pass
";
    let out = run(src);
    assert_eq!(out.len(), 1);
    assert_eq!(out[0].code, "ZR007");
}

#[test]
fn fires_on_user_skip_decorator_not_under_pytest_mark() {
    // A bare `@skip` decorator (one segment) does NOT match the
    // three-segment `pytest.mark.skip` pattern — fire as usual.
    let src = "\
@skip
def test_x():
    pass
";
    let out = run(src);
    assert_eq!(out.len(), 1);
    assert_eq!(out[0].code, "ZR007");
}

#[test]
fn fires_on_four_segment_decorator_chain_ending_in_skip() {
    let src = "\
@some.pytest.mark.skip
def test_x():
    pass
";
    let out = run(src);
    assert_eq!(out.len(), 1);
    assert_eq!(out[0].code, "ZR007");
}

#[test]
fn does_not_fire_on_pytest_mark_skip_among_other_decorators() {
    // When a stack contains both an unrelated decorator and a
    // `@pytest.mark.skip`, the skip still short-circuits.
    let src = "\
@pytest.mark.slow
@pytest.mark.skip(reason=\"todo\")
def test_x():
    pass
";
    assert!(run(src).is_empty());
}

#[test]
fn zr007_empty_test_does_not_fire_on_method_of_class_decorated_with_pytest_mark_skip() {
    // Class-level `@pytest.mark.skip` should suppress ZR007 on every
    // method body inside it — even if the method itself has no
    // decorator. This is the common placeholder-stub pattern in
    // ~/git/esl.
    let src = "\
@pytest.mark.skip
class TestX:
    def test_y(self):
        pass
";
    assert!(run(src).is_empty());
}

#[test]
fn does_not_fire_on_method_of_class_decorated_with_pytest_mark_xfail() {
    let src = "\
@pytest.mark.xfail
class TestX:
    def test_y(self):
        pass
";
    assert!(run(src).is_empty());
}

#[test]
fn does_not_fire_on_method_of_class_decorated_with_pytest_mark_skip_with_reason() {
    let src = "\
@pytest.mark.skip(reason=\"todo\")
class TestX:
    def test_y(self):
        pass
";
    assert!(run(src).is_empty());
}

#[test]
fn fires_on_method_of_class_decorated_with_pytest_mark_skipif() {
    // `skipif` is conditional — empty bodies inside still flag.
    let src = "\
@pytest.mark.skipif(True, reason=\"x\")
class TestX:
    def test_y(self):
        pass
";
    let out = run(src);
    assert_eq!(out.len(), 1);
    assert_eq!(out[0].code, "ZR007");
}

#[test]
fn does_not_fire_when_class_is_decorated_at_method_level_too() {
    // Both the class and the method carry skip-style decorators.
    // Each gate independently suppresses; the rule should not fire
    // and the lookup should not panic.
    let src = "\
@pytest.mark.skip
class TestX:
    @pytest.mark.skip
    def test_y(self):
        pass
";
    assert!(run(src).is_empty());
}

#[test]
fn comment_only_body_is_still_empty() {
    // A block of only comments reaches Python as a syntactically
    // invalid function (requires at least one statement). But tree
    // -sitter parses it with a block that has zero named non-comment
    // children — treat that as an empty body for this rule.
    let src = "\
def test_commented_out():
    # TODO: write this
    pass
";
    // pass is still there, so the rule fires.
    let out = run(src);
    assert_eq!(out.len(), 1);
}

#[test]
fn zr007_empty_test_does_not_fire_on_runtime_skip_call_as_first_statement() {
    // A test that starts with `pytest.skip(...)` is unconditionally
    // skipped at runtime — even if the rest of the body is a `pass`,
    // the body is not "empty" in the harmful sense. Mirrors the
    // decorator gate.
    let src = "\
def test_runtime_skip_pass():
    pytest.skip(\"reason\")
    pass
";
    assert!(run(src).is_empty());
}

#[test]
fn still_fires_on_pass_only_body_without_runtime_skip() {
    // Guard: a plain `pass`-only body (no skip call) still fires.
    // The runtime-skip gate must not affect unrelated empty tests.
    let src = "\
def test_pass_only():
    pass
";
    let out = run(src);
    assert_eq!(out.len(), 1);
    assert_eq!(out[0].code, "ZR007");
}
