use zorilla::config::{Config, RuleConfig};
use zorilla::report::Finding;
use zorilla::rules::zr006_patch_stack::{PatchStackRule};
use zorilla::rules::Context;
use zorilla::suppress::Suppressions;
use zorilla::tree::parse;

fn run(src: &str) -> Vec<Finding> {
    run_with(src, &Config::default().rule_config())
}

fn run_with(src: &str, config: &RuleConfig) -> Vec<Finding> {
    let tree = parse(src).unwrap();
    let suppressions = Suppressions::empty();
    let ctx = Context { file: "example.py", source: src, tree: &tree, config, suppressions: &suppressions };
    let mut out = Vec::new();
    PatchStackRule.check(&ctx, &mut out);
    out
}

#[test]
fn fires_on_four_stacked_patch_calls() {
    let src = "\
@patch(\"a\")
@patch(\"b\")
@patch(\"c\")
@patch(\"d\")
def test_many(d, c, b, a):
    assert True
";
    let out = run(src);
    assert_eq!(out.len(), 1);
    assert_eq!(out[0].code, "ZR006");
    // Location is the first decorator.
    assert_eq!(out[0].line, 1);
    assert_eq!(out[0].column, 1);
    assert!(out[0].message.contains("4 > 3"));
}

#[test]
fn does_not_fire_on_three_stacked_patches() {
    let src = "\
@patch(\"a\")
@patch(\"b\")
@patch(\"c\")
def test_ok(c, b, a):
    assert True
";
    assert!(run(src).is_empty());
}

#[test]
fn zr006_patch_stack_counts_mock_patch_variant() {
    let src = "\
@mock.patch(\"a\")
@mock.patch(\"b\")
@mock.patch(\"c\")
@mock.patch(\"d\")
def test_many(d, c, b, a):
    assert True
";
    let out = run(src);
    assert_eq!(out.len(), 1);
}

#[test]
fn counts_unittest_mock_patch_variant() {
    let src = "\
@unittest.mock.patch(\"a\")
@unittest.mock.patch(\"b\")
@unittest.mock.patch(\"c\")
@unittest.mock.patch(\"d\")
def test_many(d, c, b, a):
    assert True
";
    let out = run(src);
    assert_eq!(out.len(), 1);
}

#[test]
fn does_not_count_pytest_mark_foo() {
    let src = "\
@pytest.mark.foo
@patch(\"a\")
@patch(\"b\")
@patch(\"c\")
def test_ok(c, b, a):
    assert True
";
    // 3 patches + 1 mark = at threshold, no fire.
    assert!(run(src).is_empty());
}

#[test]
fn zr006_patch_stack_does_not_count_patch_object() {
    // `@patch.object(...)` has final identifier `object`, not `patch`.
    let src = "\
@patch.object(Foo, \"a\")
@patch.object(Foo, \"b\")
@patch.object(Foo, \"c\")
@patch.object(Foo, \"d\")
def test_many(d, c, b, a):
    assert True
";
    assert!(run(src).is_empty());
}

#[test]
fn fires_with_configured_lower_threshold() {
    let src = "\
@patch(\"a\")
@patch(\"b\")
@patch(\"c\")
def test_three(c, b, a):
    assert True
";
    let mut cfg = Config::default().rule_config();
    cfg.zr006.max_patches = 2;
    let out = run_with(src, &cfg);
    assert_eq!(out.len(), 1);
    assert!(out[0].message.contains("3 > 2"));
}

#[test]
fn does_not_fire_on_decorator_on_non_test_helper() {
    let src = "\
@patch(\"a\")
@patch(\"b\")
@patch(\"c\")
@patch(\"d\")
def _helper(d, c, b, a):
    return 1
";
    assert!(run(src).is_empty());
}

#[test]
fn zr006_patch_stack_fires_on_method_of_test_class() {
    let src = "\
class TestThing:
    @patch(\"a\")
    @patch(\"b\")
    @patch(\"c\")
    @patch(\"d\")
    def test_method(self, d, c, b, a):
        assert True
";
    let out = run(src);
    assert_eq!(out.len(), 1);
    assert_eq!(out[0].line, 2);
}

#[test]
fn handles_bare_patch_identifier_without_call() {
    // `@patch` (no call) — rare, but a valid decorator form. Treat it
    // the same as `@patch(...)`.
    let src = "\
@patch
@patch
@patch
@patch
def test_many():
    assert True
";
    let out = run(src);
    assert_eq!(out.len(), 1);
}

#[test]
fn does_not_fire_on_test_without_decorators() {
    let src = "\
def test_plain():
    assert True
";
    assert!(run(src).is_empty());
}
