use zorilla::config::{Config, RuleConfig};
use zorilla::report::Finding;
use zorilla::rules::zr001_conditional::{ConditionalRule, MESSAGE};
use zorilla::rules::Context;
use zorilla::suppress::Suppressions;
use zorilla::tree::parse;

fn run(src: &str) -> Vec<Finding> {
    run_with(src, &Config::default().rule_config())
}

fn run_with(src: &str, config: &RuleConfig) -> Vec<Finding> {
    let tree = parse(src).unwrap();
    let suppressions = Suppressions::empty();
    let ctx = Context { file: "example.py", source: src, tree: &tree, config, suppressions: &suppressions };
    let mut out = Vec::new();
    ConditionalRule.check(&ctx, &mut out);
    out
}

#[test]
fn fires_once_on_test_with_if() {
    let src = "\
def test_has_if():
    x = 1
    if x:
        assert x
";
    let out = run(src);
    assert_eq!(out.len(), 1);
    assert_eq!(out[0].code, "ZR001");
    assert_eq!(out[0].message, MESSAGE);
    assert_eq!(out[0].line, 3);
    assert_eq!(out[0].column, 5);
}

#[test]
fn fires_on_test_with_for_loop() {
    let src = "\
def test_has_for():
    total = 0
    for i in range(3):
        total += i
    assert total == 3
";
    let out = run(src);
    assert_eq!(out.len(), 1);
    assert_eq!(out[0].line, 3);
}

#[test]
fn does_not_fire_on_try_finally_only() {
    // A `try` with only a `finally` clause is cleanup, not branching
    // test logic — it's the test setup/teardown idiom, not a branch
    // between scenarios. Per the rollout summary it must not fire.
    let src = "\
def test_cleanup():
    try:
        do()
    finally:
        cleanup()
";
    assert!(run(src).is_empty());
}

#[test]
fn fires_on_test_with_try() {
    let src = "\
def test_has_try():
    try:
        do()
    except Exception:
        pass
";
    let out = run(src);
    assert_eq!(out.len(), 1);
    assert_eq!(out[0].line, 2);
    assert_eq!(out[0].column, 5);
}

#[test]
fn does_not_fire_on_if_inside_nested_def() {
    // SEMANTICS CHANGE: previously `fires_on_conditional_inside_nested_helper`
    // asserted that the inner `if` fires. The rollout summary
    // identified that nested-def control flow is a systematic false
    // positive — helpers defined inline can have whatever structure
    // they need. The outer test's control flow is the only concern.
    let src = "\
def test_with_helper():
    def inner(x):
        if x:
            return 1
        return 0
    assert inner(True) == 1
";
    assert!(run(src).is_empty());
}

#[test]
fn does_not_fire_on_if_inside_lambda() {
    // Same reasoning as nested-def: a `lambda` body is its own
    // scope; whatever conditional expression it carries belongs to
    // the helper, not the test.
    let src = "\
def test_with_lambda():
    pick = lambda x: 1 if x else 0
    assert pick(True) == 1
";
    assert!(run(src).is_empty());
}

#[test]
fn does_not_fire_on_plain_test() {
    let src = "\
def test_plain():
    x = 1 + 1
    assert x == 2
";
    assert!(run(src).is_empty());
}

#[test]
fn does_not_fire_on_if_name_main_at_module_scope() {
    // `if __name__ == "__main__":` at module scope is outside every
    // test function, so ZR001 must leave it alone.
    let src = "\
def test_ok():
    assert True


if __name__ == \"__main__\":
    test_ok()
";
    assert!(run(src).is_empty());
}

#[test]
fn does_not_fire_on_conditional_in_nonnested_helper_outside_test() {
    // Sanity: a conditional inside a top-level helper that is merely
    // *called* from a test function doesn't count — the rule only
    // looks inside test function bodies.
    let src = "\
def _helper(x):
    if x > 0:
        return x
    return -x


def test_uses_helper():
    assert _helper(-1) == 1
";
    assert!(run(src).is_empty());
}

#[test]
fn fires_once_per_test_function_even_with_multiple_conditionals() {
    // Two conditionals in one test — still only one finding, at the
    // first one.
    let src = "\
def test_many():
    x = 1
    if x:
        pass
    for i in range(3):
        pass
";
    let out = run(src);
    assert_eq!(out.len(), 1);
    assert_eq!(out[0].line, 3);
}

#[test]
fn fires_on_each_of_multiple_test_functions() {
    let src = "\
def test_a():
    if True:
        pass


def test_b():
    while True:
        break
";
    let out = run(src);
    assert_eq!(out.len(), 2);
    assert_eq!(out[0].line, 2);
    assert_eq!(out[1].line, 7);
}

#[test]
fn zr001_conditional_fires_on_method_of_test_class() {
    let src = "\
class TestSomething:
    def test_method(self):
        if self:
            pass
";
    let out = run(src);
    assert_eq!(out.len(), 1);
    assert_eq!(out[0].line, 3);
}

#[test]
fn does_not_fire_on_for_loop_of_only_bare_asserts() {
    // Parametrize-by-loop pattern: each iteration is a single
    // assert. Semantically the same as a parametrized test —
    // exempt from ZR001.
    let src = "\
def test_each_case():
    for case in CASES:
        assert case.ok
";
    assert!(run(src).is_empty());
}

#[test]
fn does_not_fire_on_for_loop_of_only_helper_asserts() {
    // `assertEqual` is in the built-in helper set; an
    // `expression_statement` wrapping a call to it is the same kind
    // of pattern as a bare assert.
    let src = "\
def test_each_case():
    for case in CASES:
        self.assertEqual(case.actual, case.expected)
";
    assert!(run(src).is_empty());
}

#[test]
fn does_not_fire_on_for_loop_with_assignment_then_assert() {
    // SEMANTICS CHANGE: previously
    // `fires_on_for_loop_with_real_logic_alongside_asserts` asserted
    // that an assignment between iterations broke the
    // for-of-asserts shape and re-fired. Run-2 against real
    // corpora flagged this as a false positive (klice
    // `test_backtest.py:32`, biston `test_injector.py:167`,
    // …): `for m in months: s = compute(m); assert s == 0` is
    // still a parametrize-by-loop — every iteration computes one
    // local and asserts on it. As long as the body has at least
    // one assert-bearing statement, no control flow, and only
    // assignments interleaved, it stays exempt.
    let src = "\
def test_each_case():
    for case in CASES:
        y = transform(case)
        assert y
";
    assert!(run(src).is_empty());
}

#[test]
fn fires_on_for_loop_with_control_flow_inside() {
    // The broadened for-of-asserts downgrade is gated on the loop
    // body containing no control flow at any nesting level. A
    // nested `if` inside the body disqualifies the loop — the rule
    // reports the `for_statement` itself (which is what's wrong
    // here), not the nested `if`.
    let src = "\
def test_each_case():
    for case in CASES:
        if case:
            assert case == 1
";
    let out = run(src);
    assert_eq!(out.len(), 1);
    assert_eq!(out[0].line, 2);
}

#[test]
fn does_not_fire_on_for_loop_calling_unknown_helper_in_assertless_test() {
    // SEMANTICS CHANGE: previously
    // `fires_on_for_loop_calling_unknown_helper` asserted that a
    // loop of plain calls fires. The cleanup-loop downgrade now
    // exempts loops of plain calls *when the enclosing test
    // function has no asserts anywhere* — that's the
    // mis-named-fixture shape (alma `tests/conftest.py:25`'s
    // `def test_env(): ...; for k in KEYS: os.environ.pop(k)`).
    let src = "\
def test_each_case():
    for case in CASES:
        process(case)
";
    assert!(run(src).is_empty());
}

#[test]
fn fires_on_for_loop_calling_unknown_helper_in_test_with_asserts() {
    // Counter-case to `does_not_fire_on_for_loop_calling_unknown_helper_in_assertless_test`:
    // the cleanup downgrade is disabled the moment any assert
    // appears in the test body. A loop of plain calls is still a
    // for_statement with non-assertion content — fires.
    let src = "\
def test_does_real_work():
    assert True
    for case in CASES:
        process(case)
";
    let out = run(src);
    assert_eq!(out.len(), 1);
    assert_eq!(out[0].line, 3);
}

#[test]
fn does_not_fire_on_for_loop_with_subtest_wrapper() {
    // cteni's dominant shape: every iteration wraps the assertion in
    // `with self.subTest(...)`. The `with` is structural noise — the
    // body is still a single helper-call assertion, so the loop is
    // still parametrize-by-loop.
    let src = "\
class TestSomething:
    def test_each_case(self):
        for case in self.cases:
            with self.subTest(case=case):
                self.assertEqual(case, case)
";
    assert!(run(src).is_empty());
}

#[test]
fn does_not_fire_on_for_loop_with_assert_raises_wrapper() {
    // `with self.assertRaises(...)` is itself the assertion. The
    // body can be any call — it's what the test expects to raise.
    let src = "\
class TestSomething:
    def test_each_case(self):
        for case in self.cases:
            with self.assertRaises(ValueError):
                do_something(case)
";
    assert!(run(src).is_empty());
}

#[test]
fn does_not_fire_on_for_loop_with_pytest_raises_wrapper() {
    // The same shape with `pytest.raises` instead of unittest's
    // `assertRaises`. `call_final_name` reduces both to the
    // trailing identifier `raises` / `assertRaises`.
    let src = "\
import pytest


def test_each_case():
    for case in CASES:
        with pytest.raises(ValueError):
            do_something(case)
";
    assert!(run(src).is_empty());
}

#[test]
fn does_not_fire_on_for_loop_with_comment_between_assignment_and_assert() {
    // Tree-sitter exposes `# comment` lines as named `comment`
    // children of the loop body. They must be treated as
    // transparent — neither asserts nor disqualifies the
    // for-of-asserts shape.
    let src = "\
def test_each_case():
    for case in CASES:
        result = transform(case)
        # explanation
        assert result in CASES
";
    assert!(run(src).is_empty());
}

#[test]
fn fires_on_for_loop_with_branching_inside_with_wrapper() {
    // Counter-case to `does_not_fire_on_for_loop_with_subtest_wrapper`:
    // a control-flow construct inside the `with` body still
    // disqualifies the loop. `loop_body_has_control_flow` walks the
    // whole subtree, so an `if` inside a `with` inside a `for` is
    // caught and the outer `for_statement` fires.
    let src = "\
class TestSomething:
    def test_each_case(self):
        for case in self.cases:
            with self.subTest(case=case):
                if case > 0:
                    self.assertEqual(case, case)
";
    let out = run(src);
    assert_eq!(out.len(), 1);
    // First conditional in the body is the `for_statement`.
    assert_eq!(out[0].line, 3);
}

#[test]
fn does_not_fire_on_for_loop_with_nested_with_wrapper() {
    // Defensive: `with a: with b: assert x` recurses through
    // `classify_with_statement` and still classifies as Assertion.
    let src = "\
class TestSomething:
    def test_each_case(self):
        for case in self.cases:
            with self.subTest(case=case):
                with self.subTest(inner=True):
                    self.assertEqual(case, case)
";
    assert!(run(src).is_empty());
}

#[test]
fn fires_on_test_with_match_statement() {
    // PEP 634 structural pattern matching is multi-branch flow by
    // definition. tree-sitter Python exposes it as `match_statement`.
    // ZR001's stated intent ("test should be linear arrange / act /
    // assert") applies as much to `match` as to `if`.
    let src = "\
def test_top_match():
    match x:
        case 1:
            assert x == 1
        case _:
            assert False
";
    let out = run(src);
    assert_eq!(out.len(), 1);
    assert_eq!(out[0].code, "ZR001");
    assert_eq!(out[0].line, 2);
}

#[test]
fn fires_on_for_loop_with_match_statement_inside_with() {
    // The for-of-asserts downgrade's `loop_body_has_control_flow`
    // walk must also catch `match_statement` — otherwise a `match`
    // inside an asserting `with` body would qualify the loop.
    let src = "\
class TestSomething:
    def test_each_case(self):
        for case in self.cases:
            with self.subTest(case=case):
                match case:
                    case 1:
                        self.assertEqual(case, 1)
                    case _:
                        self.fail()
";
    let out = run(src);
    assert_eq!(out.len(), 1);
    // The outer for_statement fires (first conditional in the body).
    assert_eq!(out[0].line, 3);
}

#[test]
fn cleanup_downgrade_ignores_assert_inside_nested_helper() {
    // An assert *inside an inline helper* shouldn't count toward
    // the enclosing test's assertion content — the outer test is
    // still doing pure cleanup. Consistent with the rule's posture
    // that nested-def subtrees are opaque to ZR001.
    let src = "\
def test_env():
    def _check():
        assert True

    for k in KEYS:
        cleanup(k)
";
    // No control flow at the outer scope: nested def is pruned, and
    // the cleanup loop qualifies because the outer test has no
    // assert at the outer scope.
    assert!(run(src).is_empty());
}

#[test]
fn outer_non_assertion_with_around_inner_assertion_with_is_classified_correctly() {
    // Defensive: the outer `with somecontext():` is *not* itself
    // an assertion context manager, so it must be classified by
    // recursing into its body. The previous implementation walked
    // the entire subtree from `with_node` and would incorrectly
    // see the *inner* `with self.assertRaises(...)` as the outer
    // with-item, masking the body. The current direct-child walk
    // gets this right — and because the inner with body is a
    // single call, the for loop is still a parametrize-substitute.
    let src = "\
class TestSomething:
    def test_each_case(self):
        for case in self.cases:
            with somecontext():
                with self.assertRaises(ValueError):
                    do(case)
";
    assert!(run(src).is_empty());
}

#[test]
fn zr001_conditional_does_not_fire_on_pytest_mark_skip() {
    // Skipped tests don't execute — their structural smells are
    // suppressed. Mirrors ZR007's gate.
    let src = "\
@pytest.mark.skip
def test_x():
    if True:
        assert True
";
    assert!(run(src).is_empty());
}

#[test]
fn zr001_conditional_does_not_fire_on_pytest_mark_skip_with_reason() {
    let src = "\
@pytest.mark.skip(reason=\"todo\")
def test_x():
    if True:
        assert True
";
    assert!(run(src).is_empty());
}

#[test]
fn zr001_conditional_does_not_fire_on_pytest_mark_xfail() {
    let src = "\
@pytest.mark.xfail
def test_x():
    for case in CASES:
        if case:
            assert case
";
    assert!(run(src).is_empty());
}

#[test]
fn zr001_conditional_does_not_fire_on_method_of_class_decorated_with_pytest_mark_skip() {
    // Class-level `@pytest.mark.skip` suppresses every method body,
    // mirroring ZR007. esl's 50 placeholder-stub pattern.
    let src = "\
@pytest.mark.skip
class TestX:
    def test_y(self):
        if True:
            assert True
";
    assert!(run(src).is_empty());
}

#[test]
fn zr001_conditional_fires_on_pytest_mark_skipif() {
    // `skipif` is conditional — body still runs on the non-skipped
    // path, so structural smells still flag. Matches ZR007's
    // documented decision.
    let src = "\
@pytest.mark.skipif(True, reason=\"x\")
def test_x():
    if True:
        assert True
";
    let out = run(src);
    assert_eq!(out.len(), 1);
    assert_eq!(out[0].code, "ZR001");
}

#[test]
fn fires_on_for_loop_with_empty_body() {
    // `for x in xs: pass` is still a loop. Empty / placeholder
    // bodies are explicitly NOT exempted by the for-of-asserts
    // refinement — only loops whose bodies actually consist of
    // asserts qualify.
    let src = "\
def test_empty_loop():
    for case in CASES:
        pass
";
    let out = run(src);
    assert_eq!(out.len(), 1);
    assert_eq!(out[0].line, 2);
}

#[test]
fn zr001_conditional_does_not_fire_on_runtime_skip_call_as_first_statement() {
    // A test whose first statement is `self.skipTest(...)` is
    // unconditionally skipped at runtime — its structural smells are
    // irrelevant, just like a `@pytest.mark.skip`-decorated test.
    // This covers the cteni unittest pattern (~28 FP findings).
    let src = "\
class TestThing:
    def test_conditional_but_skipped(self):
        self.skipTest(\"not ready\")
        if self.condition:
            assert self.value == 1
";
    assert!(run(src).is_empty());
}

#[test]
fn zr001_conditional_fires_when_runtime_skip_is_not_first_statement() {
    // A skip call that is NOT the first real statement does not
    // suppress ZR001 — the test body may still execute before it.
    let src = "\
def test_has_if_then_skip():
    if True:
        pytest.skip(\"reason\")
    assert True
";
    let out = run(src);
    assert_eq!(out.len(), 1);
    assert_eq!(out[0].code, "ZR001");
}
