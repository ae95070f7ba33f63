use zorilla::tree::parse;

#[test]
fn parses_a_trivial_function() {
    let tree = parse("def test_foo():\n    pass\n").unwrap();
    assert_eq!(tree.nodes[0].kind, "module");
    assert!(!tree.has_error());
}

#[test]
fn empty_source_is_ok() {
    let tree = parse("").unwrap();
    assert_eq!(tree.nodes[0].kind, "module");
}

#[test]
fn malformed_source_still_returns_tree_with_error_node() {
    let tree = parse("def :").unwrap();
    assert!(tree.has_error());
}

#[test]
fn nodes_are_in_preorder_with_parents_and_positions() {
    let tree = parse("def test_a():\n    x = 1\n").unwrap();
    assert_eq!(tree.nodes[0].parent, 0);
    assert_eq!(tree.nodes[0].end, tree.nodes.len());
    let def = tree.nodes.iter().position(|n| n.kind == "function_definition").unwrap();
    assert_eq!(tree.nodes[def].row, 0);
    assert_eq!(tree.nodes[def].col, 0);
    let name = tree.child_by_field(def, "name").unwrap();
    assert_eq!(tree.nodes[name].text.as_deref(), Some("test_a"));
    assert_eq!(tree.nodes[name].parent, def);
    assert!(tree.kind_is(name, "identifier"));
    for (i, n) in tree.nodes.iter().enumerate().skip(1) {
        assert!(n.parent < i);
        assert_eq!(n.depth, tree.nodes[n.parent].depth + 1);
        assert!(n.end <= tree.nodes[n.parent].end);
    }
}

#[test]
fn a_missing_token_is_an_error() {
    let tree = parse("x = (1, 2\n").unwrap();
    assert!(tree.has_error());
}
