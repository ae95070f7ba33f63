use zorilla::config::Config;
use zorilla::rules::{Context, HelloRule, HELLO_MESSAGE};
use zorilla::suppress::Suppressions;
use zorilla::tree::parse;

#[test]
fn fires_once_per_test_function() {
    let src = "\
def test_a():
    pass

class TestX:
    def test_b(self):
        pass

def _helper():
    pass
";
    let tree = parse(src).unwrap();
    let suppressions = Suppressions::empty();
    let config = Config::default().rule_config();
    let ctx = Context { file: "example.py", source: src, tree: &tree, config: &config, suppressions: &suppressions };
    let mut out = Vec::new();
    HelloRule.check(&ctx, &mut out);
    assert_eq!(out.len(), 2);
    assert!(out.iter().all(|f| f.code == "ZR000"));
    assert!(out.iter().all(|f| f.message == HELLO_MESSAGE));
    assert_eq!(out[0].line, 1);
    assert_eq!(out[0].column, 1);
}

#[test]
fn does_not_fire_when_no_test_functions() {
    let src = "def _helper():\n    pass\n";
    let tree = parse(src).unwrap();
    let suppressions = Suppressions::empty();
    let config = Config::default().rule_config();
    let ctx = Context { file: "x.py", source: src, tree: &tree, config: &config, suppressions: &suppressions };
    let mut out = Vec::new();
    HelloRule.check(&ctx, &mut out);
    assert!(out.is_empty());
}
