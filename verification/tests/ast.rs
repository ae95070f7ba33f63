use zorilla::ast::{
    climb_past_parens, decorator_chain_segments, function_name, is_assertion_helper_name, is_test_function,
    iter_test_functions, test_has_runtime_skip_call, walk_descendants, walk_descendants_pruned,
};
use zorilla::tree::{parse, SyntaxTree};

/// The first node of kind `kind`, in source order.
fn first_of_kind(tree: &SyntaxTree, kind: &str) -> Option<usize> {
    (0..tree.nodes.len()).find(|&i| tree.nodes[i].kind == kind)
}

/// The function definition named `name`.
fn find_fn(tree: &SyntaxTree, _src: &str, name: &str) -> usize {
    (0..tree.nodes.len())
        .find(|&i| {
            tree.nodes[i].kind == "function_definition"
                && function_name(tree, i).map(String::as_str) == Some(name)
        })
        .expect("function not found")
}

/// The first decorator of the tree.
fn first_decorator(tree: &SyntaxTree) -> usize {
    first_of_kind(tree, "decorator").expect("source must contain a decorator")
}

#[test]
fn top_level_test_is_a_test() {
    let src = "def test_foo():\n    pass\n";
    let tree = parse(src).unwrap();
    assert!(is_test_function(&tree, find_fn(&tree, src, "test_foo")));
}

#[test]
fn method_on_test_class_is_a_test() {
    let src = "class TestThing:\n    def test_foo(self):\n        pass\n";
    let tree = parse(src).unwrap();
    assert!(is_test_function(&tree, find_fn(&tree, src, "test_foo")));
}

#[test]
fn async_top_level_test_is_a_test() {
    let src = "async def test_foo():\n    pass\n";
    let tree = parse(src).unwrap();
    assert!(is_test_function(&tree, find_fn(&tree, src, "test_foo")));
}

#[test]
fn nested_inner_def_is_not_a_test() {
    let src = "def outer():\n    def test_foo():\n        pass\n";
    let tree = parse(src).unwrap();
    assert!(!is_test_function(&tree, find_fn(&tree, src, "test_foo")));
}

#[test]
fn module_level_non_test_helper_is_not_a_test() {
    let src = "def _helper():\n    pass\n";
    let tree = parse(src).unwrap();
    assert!(!is_test_function(&tree, find_fn(&tree, src, "_helper")));
}

#[test]
fn method_on_non_test_class_is_not_a_test() {
    let src = "class OtherThing:\n    def test_foo(self):\n        pass\n";
    let tree = parse(src).unwrap();
    assert!(!is_test_function(&tree, find_fn(&tree, src, "test_foo")));
}

#[test]
fn walk_descendants_pruned_skips_nested_function_definition_subtrees() {
    // The outer body contains a top-level `if_statement`, plus a nested
    // `def helper()` whose own body contains another `if_statement`. Pruning
    // on `function_definition` must visit the outer `if` but not the inner one.
    let src = "\
def test_outer():
    if True:
        pass
    def helper():
        if False:
            pass
    helper()
";
    let tree = parse(src).unwrap();
    let test_fn = find_fn(&tree, src, "test_outer");
    let body = tree.child_by_field(test_fn, "body").unwrap();

    // Baseline: the unpruned walk sees both `if_statement`s.
    let unpruned: Vec<usize> = walk_descendants(&tree, body)
        .into_iter()
        .filter(|&n| tree.nodes[n].kind == "if_statement")
        .map(|n| tree.nodes[n].row)
        .collect();
    assert_eq!(unpruned.len(), 2, "sanity: source has two if_statements");

    // Pruning on `function_definition` keeps only the outer one.
    let prune = vec!["function_definition", "lambda"];
    let pruned: Vec<usize> = walk_descendants_pruned(&tree, body, &prune)
        .into_iter()
        .filter(|&n| tree.nodes[n].kind == "if_statement")
        .map(|n| tree.nodes[n].row)
        .collect();
    assert_eq!(pruned.len(), 1);
    // The outer `if True:` is on the second line of the source (0-indexed row 1).
    assert_eq!(pruned[0], 1);
}

#[test]
fn walk_descendants_pruned_visits_root_even_if_should_descend_rejects_root_kind() {
    // Pruning is only consulted for *children*: the start node is always
    // visited, even when its own kind is pruned.
    let src = "def f():\n    pass\n";
    let tree = parse(src).unwrap();
    let root = 0;
    let prune = vec![tree.nodes[root].kind, "function_definition"];
    let visited = walk_descendants_pruned(&tree, root, &prune);
    assert!(visited.contains(&root), "the start node is always visited");
    assert_eq!(visited, vec![root], "every child was pruned");
}

#[test]
fn is_assertion_helper_name_accepts_underscore_prefix() {
    let helpers: Vec<String> = vec!["assertEqual".to_string()];

    // Exact match against the configured set still works.
    assert!(is_assertion_helper_name("assertEqual", Some(&helpers)));

    // Snake-case prefix `assert_…` is accepted when helpers are
    // active — this is the new behaviour.
    assert!(is_assertion_helper_name("assert_css_class_present", Some(&helpers)));

    // Private-helper prefix `_assert_…` is also accepted.
    assert!(is_assertion_helper_name("_assert_invariant", Some(&helpers)));

    // A bare `assertion` (no underscore) must NOT match — the prefix
    // check requires the underscore so we don't catch unrelated
    // identifiers like `assertion`, `assertively`, etc.
    assert!(!is_assertion_helper_name("assertion", Some(&helpers)));

    // The prefix branch is gated on `helpers.is_some()`. With
    // `None`, only the (absent) exact-match branch would fire — so
    // an `assert_*` name must NOT match. This preserves ZR004's
    // bare-assert counter semantics.
    assert!(!is_assertion_helper_name("assert_css_class_present", None));
    assert!(!is_assertion_helper_name("_assert_invariant", None));
    assert!(!is_assertion_helper_name("assertEqual", None));
}

#[test]
fn decorator_chain_segments_handles_pytest_mark_skip() {
    let src = "\
@pytest.mark.skip
def test_x():
    pass
";
    let tree = parse(src).unwrap();
    let decorator = first_decorator(&tree);
    assert_eq!(decorator_chain_segments(&tree, decorator), vec!["pytest", "mark", "skip"]);
}

#[test]
fn decorator_chain_segments_handles_pytest_mark_skip_call_form_with_reason() {
    let src = "\
@pytest.mark.skip(reason=\"todo\")
def test_x():
    pass
";
    let tree = parse(src).unwrap();
    let decorator = first_decorator(&tree);
    assert_eq!(decorator_chain_segments(&tree, decorator), vec!["pytest", "mark", "skip"]);
}

#[test]
fn decorator_chain_segments_handles_bare_identifier() {
    let src = "\
@skip
def test_x():
    pass
";
    let tree = parse(src).unwrap();
    let decorator = first_decorator(&tree);
    assert_eq!(decorator_chain_segments(&tree, decorator), vec!["skip"]);
}

#[test]
fn decorator_chain_segments_handles_bare_identifier_call_form() {
    // `@skip()` — call whose function is a bare identifier.
    let src = "\
@skip()
def test_x():
    pass
";
    let tree = parse(src).unwrap();
    let decorator = first_decorator(&tree);
    assert_eq!(decorator_chain_segments(&tree, decorator), vec!["skip"]);
}

#[test]
fn decorator_chain_segments_handles_two_segment_chain() {
    // `@mock.patch` — two-segment attribute chain.
    let src = "\
@mock.patch
def test_x():
    pass
";
    let tree = parse(src).unwrap();
    let decorator = first_decorator(&tree);
    assert_eq!(decorator_chain_segments(&tree, decorator), vec!["mock", "patch"]);
}

#[test]
fn decorator_chain_segments_handles_four_segment_chain() {
    // `@a.b.c.d` — four segments. ZR007's gate matches length-3 only,
    // so this MUST come back as a four-element Vec so the caller's
    // exact-length match correctly rejects it. Locks in the
    // "any deeper chain is preserved verbatim, not truncated" promise.
    let src = "\
@a.b.c.d
def test_x():
    pass
";
    let tree = parse(src).unwrap();
    let decorator = first_decorator(&tree);
    assert_eq!(decorator_chain_segments(&tree, decorator), vec!["a", "b", "c", "d"]);
}

#[test]
fn decorator_chain_segments_returns_empty_for_subscripted_decorator() {
    // `@mark[skip]` — a subscript expression is not a recognizable
    // identifier/attribute chain. The helper must return an empty
    // `Vec` (and crucially must NOT panic). This is the documented
    // contract for unrecognised decorator shapes.
    //
    // Note: tree-sitter's Python grammar may or may not accept this
    // as valid; the rule cares only that we don't crash and that
    // callers see an empty chain.
    let src = "\
@mark[skip]
def test_x():
    pass
";
    let tree = parse(src).unwrap();
    let decorator = first_decorator(&tree);
    assert!(
        decorator_chain_segments(&tree, decorator).is_empty(),
        "subscripted decorator must return an empty Vec, got {:?}",
        decorator_chain_segments(&tree, decorator)
    );
}

#[test]
fn climb_past_parens_unwraps_nested_parentheses() {
    // The literal sits inside `(("value"))`: two layers of
    // `parenthesized_expression`. `climb_past_parens` must walk through both
    // and stop at the outer `assignment` parent's right-hand side.
    let src = "x = ((\"value\"))\n";
    let tree = parse(src).unwrap();
    let string_node = first_of_kind(&tree, "string").expect("source has a string");
    let outer = climb_past_parens(&tree, string_node);
    assert_eq!(tree.nodes[outer].kind, "parenthesized_expression");
    assert_eq!(tree.nodes[tree.nodes[outer].parent].kind, "assignment");
}

#[test]
fn climb_past_parens_returns_node_when_no_paren_parent() {
    let src = "x = \"value\"\n";
    let tree = parse(src).unwrap();
    let string_node = first_of_kind(&tree, "string").expect("source has a string");
    let result = climb_past_parens(&tree, string_node);
    assert_eq!(result, string_node);
}

#[test]
fn iter_yields_every_test_function_in_source_order() {
    let src = "\
def test_a():
    pass

class TestX:
    def test_b(self):
        pass

def _helper():
    pass

async def test_c():
    pass

def outer():
    def test_inner():
        pass

class Other:
    def test_d(self):
        pass
";
    let tree = parse(src).unwrap();
    let names: Vec<String> = iter_test_functions(&tree)
        .into_iter()
        .map(|n| function_name(&tree, n).unwrap().to_string())
        .collect();
    assert_eq!(names, vec!["test_a", "test_b", "test_c"]);
}

#[test]
fn runtime_skip_self_skip_test_as_first_statement_returns_true() {
    let src = "\
class TestX:
    def test_foo(self):
        self.skipTest(\"not ready\")
        assert True
";
    let tree = parse(src).unwrap();
    let test_fn = find_fn(&tree, src, "test_foo");
    assert!(test_has_runtime_skip_call(&tree, test_fn));
}

#[test]
fn runtime_skip_self_skip_as_first_statement_returns_true() {
    let src = "\
class TestX:
    def test_foo(self):
        self.skip(\"reason\")
";
    let tree = parse(src).unwrap();
    let test_fn = find_fn(&tree, src, "test_foo");
    assert!(test_has_runtime_skip_call(&tree, test_fn));
}

#[test]
fn runtime_skip_pytest_skip_as_first_statement_returns_true() {
    let src = "\
def test_foo():
    pytest.skip(\"reason\")
    assert True
";
    let tree = parse(src).unwrap();
    let test_fn = find_fn(&tree, src, "test_foo");
    assert!(test_has_runtime_skip_call(&tree, test_fn));
}

#[test]
fn runtime_skip_after_docstring_returns_true() {
    // A leading docstring is transparent — the skip call right after
    // is still the "first real statement".
    let src = "\
def test_foo():
    \"\"\"This test is skipped.\"\"\"
    pytest.skip(\"reason\")
    assert True
";
    let tree = parse(src).unwrap();
    let test_fn = find_fn(&tree, src, "test_foo");
    assert!(test_has_runtime_skip_call(&tree, test_fn));
}

#[test]
fn runtime_skip_as_second_statement_returns_false() {
    // A skip that is NOT first does not suppress the test.
    let src = "\
def test_foo():
    setup()
    pytest.skip(\"reason\")
";
    let tree = parse(src).unwrap();
    let test_fn = find_fn(&tree, src, "test_foo");
    assert!(!test_has_runtime_skip_call(&tree, test_fn));
}

#[test]
fn runtime_skip_bare_skip_call_returns_false() {
    // `skip(...)` without a receiver is not accepted: the call must be a
    // two-segment attribute.
    let src = "\
def test_foo():
    skip(\"reason\")
";
    let tree = parse(src).unwrap();
    let test_fn = find_fn(&tree, src, "test_foo");
    assert!(!test_has_runtime_skip_call(&tree, test_fn));
}

#[test]
fn runtime_skip_self_skipif_returns_false() {
    // `skipif` is conditional and must NOT match.
    let src = "\
class TestX:
    def test_foo(self):
        self.skipTest_someother(\"reason\")
";
    let tree = parse(src).unwrap();
    let test_fn = find_fn(&tree, src, "test_foo");
    assert!(!test_has_runtime_skip_call(&tree, test_fn));
}

#[test]
fn runtime_skip_plain_test_returns_false() {
    let src = "\
def test_foo():
    assert 1 == 1
";
    let tree = parse(src).unwrap();
    let test_fn = find_fn(&tree, src, "test_foo");
    assert!(!test_has_runtime_skip_call(&tree, test_fn));
}

#[test]
fn runtime_skip_other_receiver_returns_false() {
    // `something_else.skip(...)` — not `self` or `pytest`.
    let src = "\
def test_foo():
    manager.skip(\"reason\")
";
    let tree = parse(src).unwrap();
    let test_fn = find_fn(&tree, src, "test_foo");
    assert!(!test_has_runtime_skip_call(&tree, test_fn));
}
