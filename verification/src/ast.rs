//! Queries over Python syntax trees shared by the rules: which functions are
//! pytest tests, what a call or decorator names, and which assert-shaped
//! constructs a test body holds.
//!
//! Nodes are indices into [`SyntaxTree::nodes`]; a node's subtree is the index
//! range from the node to its `end`, so a walk over descendants in source order
//! is a walk over that range.
use vstd::prelude::*;
use crate::text::{starts_with, str_eq, str_starts_with};
use crate::tree::{
    depths, desc, end_at, field_child, first_where, in_field, lemma_ancestors, lemma_first_where,
    lemma_nest, lemma_parent, text_of, tree_wf, SyntaxNode, SyntaxTree,
};

verus! {

/// Kind of node `i`.
pub open spec fn kind(ns: Seq<SyntaxNode>, i: int) -> Seq<char> {
    ns[i].kind@
}

/// The indices in `lo..hi` that satisfy `p`, ascending.
pub open spec fn pick(lo: int, hi: int, p: spec_fn(int) -> bool) -> Seq<usize>
    decreases hi - lo,
{
    if hi <= lo {
        Seq::empty()
    } else if p(hi - 1) {
        pick(lo, hi - 1, p).push((hi - 1) as usize)
    } else {
        pick(lo, hi - 1, p)
    }
}

/// The parent of node `i`, if `i` is not the root.
pub open spec fn parent_of(ns: Seq<SyntaxNode>, i: int) -> Option<int> {
    if i == 0 {
        None
    } else {
        Some(ns[i].parent as int)
    }
}

/// `c` is a named child of `p`.
pub open spec fn named_child_of(ns: Seq<SyntaxNode>, p: int, c: int) -> bool {
    ns[c].parent as int == p && ns[c].named
}

/// The named children of `p`, in source order.
pub open spec fn named_kids(ns: Seq<SyntaxNode>, p: int) -> Seq<usize> {
    pick(p + 1, ns[p].end as int, |c: int| named_child_of(ns, p, c))
}

/// The first named child of `p`.
pub open spec fn first_named(ns: Seq<SyntaxNode>, p: int) -> Option<int> {
    first_where(p + 1, ns[p].end as int, |c: int| named_child_of(ns, p, c))
}

/// Text of the child of `i` in field `f`.
pub open spec fn field_text_of(ns: Seq<SyntaxNode>, i: int, f: Seq<char>) -> Option<Seq<char>> {
    text_of(ns, field_child(ns, i, f))
}

/// The `name` of a function or class definition.
pub open spec fn name_of(ns: Seq<SyntaxNode>, i: int) -> Option<Seq<char>> {
    field_text_of(ns, i, "name"@)
}

/// An enclosing node that still lets a `test_*` function be a test: not a
/// function, and, if a class, one named `Test*`.
pub open spec fn allows_test(ns: Seq<SyntaxNode>, a: int) -> bool {
    &&& kind(ns, a) != "function_definition"@
    &&& kind(ns, a) == "class_definition"@ ==> (name_of(ns, a) matches Some(c) && starts_with(c, "Test"@))
}

/// Node `i` is a pytest test function: a `function_definition` named `test_*`,
/// nested in no function, and in no class that is not named `Test*`.
pub open spec fn is_test_fn(ns: Seq<SyntaxNode>, i: int) -> bool {
    &&& kind(ns, i) == "function_definition"@
    &&& name_of(ns, i) matches Some(n) && starts_with(n, "test_"@)
    &&& forall|a: int| #[trigger] desc(ns, a, i) ==> allows_test(ns, a)
}

/// The test functions of a tree, in source order.
pub open spec fn test_fns(ns: Seq<SyntaxNode>) -> Seq<usize> {
    pick(0, ns.len() as int, |i: int| is_test_fn(ns, i))
}

/// The final identifier an `identifier` / `attribute` expression names:
/// `patch` for `patch`, `mock.patch` and `unittest.mock.patch`.
pub open spec fn tail_name(ns: Seq<SyntaxNode>, e: int) -> Option<Seq<char>> {
    if kind(ns, e) == "identifier"@ {
        text_of(ns, Some(e))
    } else if kind(ns, e) == "attribute"@ {
        field_text_of(ns, e, "attribute"@)
    } else {
        None
    }
}

/// The final identifier of a call's `function` expression.
pub open spec fn call_name(ns: Seq<SyntaxNode>, c: int) -> Option<Seq<char>> {
    match field_child(ns, c, "function"@) {
        Some(f) => tail_name(ns, f),
        None => None,
    }
}

pub proof fn lemma_desc_trans(ns: Seq<SyntaxNode>, a: int, b: int, c: int)
    requires
        tree_wf(ns),
        desc(ns, a, b),
        desc(ns, b, c),
    ensures
        desc(ns, a, c),
{
    lemma_nest(ns, a, b);
}

/// A field child lies inside its parent's subtree.
pub proof fn lemma_field_child(ns: Seq<SyntaxNode>, p: int, f: Seq<char>)
    requires
        tree_wf(ns),
        0 <= p < ns.len(),
    ensures
        field_child(ns, p, f) matches Some(c) ==> desc(ns, p, c) && in_field(ns, p, f, c),
{
    lemma_first_where(p + 1, ns[p].end as int, |c: int| in_field(ns, p, f, c));
    assert(end_at(depths(ns), p, ns[p].end as int));
}

/// A first named child lies inside its parent's subtree.
pub proof fn lemma_first_named(ns: Seq<SyntaxNode>, p: int)
    requires
        tree_wf(ns),
        0 <= p < ns.len(),
    ensures
        first_named(ns, p) matches Some(c) ==> desc(ns, p, c) && named_child_of(ns, p, c),
{
    lemma_first_where(p + 1, ns[p].end as int, |c: int| named_child_of(ns, p, c));
    assert(end_at(depths(ns), p, ns[p].end as int));
}

/// Text of the child of node `i` in field `f`.
pub fn field_text<'a>(tree: &'a SyntaxTree, i: usize, f: &str) -> (r: Option<&'a String>)
    requires
        tree_wf(tree.nodes@),
        i < tree.nodes@.len(),
    ensures
        match r {
            Some(s) => field_text_of(tree.nodes@, i as int, f@) == Some(s@),
            None => field_text_of(tree.nodes@, i as int, f@) is None,
        },
{
    proof {
        lemma_field_child(tree.nodes@, i as int, f@);
    }
    match tree.child_by_field(i, f) {
        Some(c) => tree.text_at(c),
        None => None,
    }
}

/// The `name` of the function or class definition `i`.
pub fn function_name<'a>(tree: &'a SyntaxTree, i: usize) -> (r: Option<&'a String>)
    requires
        tree_wf(tree.nodes@),
        i < tree.nodes@.len(),
    ensures
        match r {
            Some(s) => name_of(tree.nodes@, i as int) == Some(s@),
            None => name_of(tree.nodes@, i as int) is None,
        },
{
    field_text(tree, i, "name")
}

/// Whether node `i` is a pytest test function (see [`is_test_fn`]).
pub fn is_test_function(tree: &SyntaxTree, i: usize) -> (r: bool)
    requires
        tree_wf(tree.nodes@),
        i < tree.nodes@.len(),
    ensures
        r == is_test_fn(tree.nodes@, i as int),
{
    let ghost ns = tree.nodes@;
    if !tree.kind_is(i, "function_definition") {
        return false;
    }
    match function_name(tree, i) {
        None => return false,
        Some(n) => {
            if !str_starts_with(n.as_str(), "test_") {
                return false;
            }
        },
    }
    let mut cur = i;
    while cur != 0
        invariant
            ns == tree.nodes@,
            tree_wf(ns),
            cur < ns.len(),
            cur == i || desc(ns, cur as int, i as int),
            forall|a: int| #[trigger] desc(ns, a, i as int) && !desc(ns, a, cur as int) ==> allows_test(ns, a),
        decreases cur,
    {
        let p = tree.nodes[cur].parent;
        proof {
            lemma_parent(ns, cur as int);
            assert forall|a: int| #[trigger] desc(ns, a, cur as int) <==> (a == p || desc(ns, a, p as int)) by {
                lemma_ancestors(ns, a, cur as int);
            }
            if cur != i {
                lemma_desc_trans(ns, p as int, cur as int, i as int);
            }
            assert(desc(ns, p as int, i as int));
        }
        if tree.kind_is(p, "function_definition") {
            return false;
        }
        if tree.kind_is(p, "class_definition") {
            match function_name(tree, p) {
                None => return false,
                Some(c) => {
                    if !str_starts_with(c.as_str(), "Test") {
                        return false;
                    }
                },
            }
        }
        cur = p;
    }
    true
}

/// Every test function of the tree, in source order.
pub fn iter_test_functions(tree: &SyntaxTree) -> (r: Vec<usize>)
    requires
        tree_wf(tree.nodes@),
    ensures
        r@ == test_fns(tree.nodes@),
{
    let ghost ns = tree.nodes@;
    let ghost p = |i: int| is_test_fn(ns, i);
    let mut out: Vec<usize> = Vec::new();
    let mut i: usize = 0;
    while i < tree.nodes.len()
        invariant
            ns == tree.nodes@,
            tree_wf(ns),
            i <= ns.len(),
            p == (|i: int| is_test_fn(ns, i)),
            out@ == pick(0, i as int, p),
        decreases ns.len() - i,
    {
        if is_test_function(tree, i) {
            out.push(i);
        }
        i = i + 1;
    }
    out
}

/// The final identifier of the `identifier` / `attribute` expression `e`.
pub fn identifier_or_attribute_tail<'a>(tree: &'a SyntaxTree, e: usize) -> (r: Option<&'a String>)
    requires
        tree_wf(tree.nodes@),
        e < tree.nodes@.len(),
    ensures
        match r {
            Some(s) => tail_name(tree.nodes@, e as int) == Some(s@),
            None => tail_name(tree.nodes@, e as int) is None,
        },
{
    if tree.kind_is(e, "identifier") {
        tree.text_at(e)
    } else if tree.kind_is(e, "attribute") {
        field_text(tree, e, "attribute")
    } else {
        None
    }
}

/// The final identifier of call `c`'s `function` expression: `foo` for
/// `foo(...)`, `a.b.foo(...)` and `self.foo(...)`.
pub fn call_final_name<'a>(tree: &'a SyntaxTree, c: usize) -> (r: Option<&'a String>)
    requires
        tree_wf(tree.nodes@),
        c < tree.nodes@.len(),
    ensures
        match r {
            Some(s) => call_name(tree.nodes@, c as int) == Some(s@),
            None => call_name(tree.nodes@, c as int) is None,
        },
{
    proof {
        lemma_field_child(tree.nodes@, c as int, "function"@);
    }
    match tree.child_by_field(c, "function") {
        Some(f) => identifier_or_attribute_tail(tree, f),
        None => None,
    }
}

/// `name` is an assertion helper: with a helper list, one of its names, or a
/// name starting with `assert_` or `_assert_`; with none, never.
pub open spec fn helper_named(name: Seq<char>, helpers: Option<Seq<Seq<char>>>) -> bool {
    match helpers {
        Some(h) => h.contains(name) || starts_with(name, "assert_"@) || starts_with(name, "_assert_"@),
        None => false,
    }
}

/// The views of a list of strings.
pub open spec fn names_view(v: Seq<String>) -> Seq<Seq<char>> {
    v.map_values(|s: String| s@)
}

/// Whether `name` is an assertion-helper identifier (see [`helper_named`]).
pub fn is_assertion_helper_name(name: &str, helpers: Option<&Vec<String>>) -> (r: bool)
    ensures
        r == (helpers matches Some(h) && helper_named(name@, Some(names_view(h@)))),
{
    match helpers {
        None => false,
        Some(h) => {
            let ghost hv = names_view(h@);
            let mut i: usize = 0;
            while i < h.len()
                invariant
                    i <= h@.len(),
                    helpers == Some(h),
                    hv == names_view(h@),
                    hv.len() == h@.len(),
                    forall|j: int| 0 <= j < i ==> hv[j] != name@,
                decreases h.len() - i,
            {
                if str_eq(h[i].as_str(), name) {
                    proof {
                        assert(hv[i as int] == h@[i as int]@);
                        assert(hv[i as int] == name@);
                        assert(hv.contains(name@));

                    }
                    return true;
                }
                i = i + 1;
            }
            proof {
                assert(!hv.contains(name@));
            }
            str_starts_with(name, "assert_") || str_starts_with(name, "_assert_")
        },
    }
}


/// Number of named children of `p`.
pub fn named_child_count(tree: &SyntaxTree, p: usize) -> (r: usize)
    requires
        tree_wf(tree.nodes@),
        p < tree.nodes@.len(),
    ensures
        r == named_kids(tree.nodes@, p as int).len(),
{
    let ghost ns = tree.nodes@;
    let ghost pr = |c: int| named_child_of(ns, p as int, c);
    let end = tree.nodes[p].end;
    assert(end_at(depths(ns), p as int, end as int));
    let mut n: usize = 0;
    let mut c = p + 1;
    while c < end
        invariant
            ns == tree.nodes@,
            p < c <= end <= ns.len(),
            end == ns[p as int].end,
            pr == (|c: int| named_child_of(ns, p as int, c)),
            n == pick(p + 1, c as int, pr).len(),
            n <= c,
        decreases end - c,
    {
        if tree.nodes[c].parent == p && tree.nodes[c].named {
            n = n + 1;
        }
        c = c + 1;
    }
    n
}

/// The named children of `p`, in source order.
pub fn named_children(tree: &SyntaxTree, p: usize) -> (r: Vec<usize>)
    requires
        tree_wf(tree.nodes@),
        p < tree.nodes@.len(),
    ensures
        r@ == named_kids(tree.nodes@, p as int),
        forall|k: int| 0 <= k < r@.len() ==> desc(tree.nodes@, p as int, #[trigger] r@[k] as int) && named_child_of(tree.nodes@, p as int, r@[k] as int),
{
    let ghost ns = tree.nodes@;
    let ghost pr = |c: int| named_child_of(ns, p as int, c);
    let end = tree.nodes[p].end;
    assert(end_at(depths(ns), p as int, end as int));
    let mut out: Vec<usize> = Vec::new();
    let mut c = p + 1;
    while c < end
        invariant
            ns == tree.nodes@,
            p < c <= end <= ns.len(),
            end == ns[p as int].end,
            pr == (|c: int| named_child_of(ns, p as int, c)),
            out@ == pick(p + 1, c as int, pr),
            forall|k: int| 0 <= k < out@.len() ==> desc(ns, p as int, #[trigger] out@[k] as int) && named_child_of(ns, p as int, out@[k] as int),
        decreases end - c,
    {
        if tree.nodes[c].parent == p && tree.nodes[c].named {
            out.push(c);
        }
        c = c + 1;
    }
    out
}

/// The first named child of `p`.
pub fn first_named_child(tree: &SyntaxTree, p: usize) -> (r: Option<usize>)
    requires
        tree_wf(tree.nodes@),
        p < tree.nodes@.len(),
    ensures
        match first_named(tree.nodes@, p as int) {
            Some(c) => (r matches Some(x) && x == c) && desc(tree.nodes@, p as int, c) && named_child_of(
                tree.nodes@,
                p as int,
                c,
            ),
            None => r is None,
        },
{
    let ghost ns = tree.nodes@;
    let ghost pr = |c: int| named_child_of(ns, p as int, c);
    proof {
        lemma_first_named(ns, p as int);
    }
    let end = tree.nodes[p].end;
    assert(end_at(depths(ns), p as int, end as int));
    let mut c = p + 1;
    while c < end
        invariant
            ns == tree.nodes@,
            p < c <= end <= ns.len(),
            end == ns[p as int].end,
            pr == (|c: int| named_child_of(ns, p as int, c)),
            first_where(p + 1, end as int, pr) == first_where(c as int, end as int, pr),
        decreases end - c,
    {
        if tree.nodes[c].parent == p && tree.nodes[c].named {
            return Some(c);
        }
        c = c + 1;
    }
    None
}

/// An assert-shaped construct found inside a test body.
#[derive(Clone, Copy, PartialEq, Eq, Structural, Debug)]
pub enum AssertHit {
    /// `assert x`: an `assert_statement` with at most one named child.
    BareAssert(usize),
    /// `assert x, "msg"`: an `assert_statement` with a message.
    MessageAssert(usize),
    /// A call whose final name is an assertion helper.
    HelperCall(usize),
    /// A `with` statement whose item calls something named `raises` or `warns`.
    RaisesContext(usize),
}

/// Node `i` is a bare `assert x` statement.
pub open spec fn is_bare_assert(ns: Seq<SyntaxNode>, i: int) -> bool {
    kind(ns, i) == "assert_statement"@ && named_kids(ns, i).len() <= 1
}

/// Node `c` calls something whose final name is `raises` or `warns`.
#[verifier::opaque]
pub open spec fn raises_call(ns: Seq<SyntaxNode>, c: int) -> bool {
    kind(ns, c) == "call"@ && (call_name(ns, c) matches Some(n) && (n == "raises"@ || n == "warns"@))
}

/// Node `x` is a `with_item` holding a `raises` / `warns` call.
pub open spec fn raises_item(ns: Seq<SyntaxNode>, x: int) -> bool {
    kind(ns, x) == "with_item"@ && exists|c: int| x <= c < ns[x].end && #[trigger] raises_call(ns, c)
}

/// The `with` statement `w` has a `raises` / `warns` item.
pub open spec fn with_raises(ns: Seq<SyntaxNode>, w: int) -> bool {
    exists|x: int| w <= x < ns[w].end && #[trigger] raises_item(ns, x)
}

/// What kind of assert-shaped construct node `i` is, if any. Helper calls
/// count only when a helper list is given.
#[verifier::opaque]
pub open spec fn classify(ns: Seq<SyntaxNode>, i: int, helpers: Option<Seq<Seq<char>>>) -> Option<AssertHit> {
    if kind(ns, i) == "assert_statement"@ {
        if named_kids(ns, i).len() <= 1 {
            Some(AssertHit::BareAssert(i as usize))
        } else {
            Some(AssertHit::MessageAssert(i as usize))
        }
    } else if kind(ns, i) == "call"@ {
        match call_name(ns, i) {
            Some(n) => if helper_named(n, helpers) {
                Some(AssertHit::HelperCall(i as usize))
            } else {
                None
            },
            None => None,
        }
    } else if kind(ns, i) == "with_statement"@ {
        if with_raises(ns, i) {
            Some(AssertHit::RaisesContext(i as usize))
        } else {
            None
        }
    } else {
        None
    }
}

/// The helper list as plain names.
pub open spec fn helpers_view(h: Option<&Vec<String>>) -> Option<Seq<Seq<char>>> {
    match h {
        Some(v) => Some(names_view(v@)),
        None => None,
    }
}

/// Whether call `c` names `raises` or `warns`.
fn is_raises_call(tree: &SyntaxTree, c: usize) -> (r: bool)
    requires
        tree_wf(tree.nodes@),
        c < tree.nodes@.len(),
    ensures
        r == raises_call(tree.nodes@, c as int),
{
    reveal(raises_call);
    if !tree.kind_is(c, "call") {
        return false;
    }
    match call_final_name(tree, c) {
        Some(n) => str_eq(n.as_str(), "raises") || str_eq(n.as_str(), "warns"),
        None => false,
    }
}

/// Whether the subtree of `x` holds a `raises` / `warns` call.
fn subtree_has_raises_call(tree: &SyntaxTree, x: usize) -> (r: bool)
    requires
        tree_wf(tree.nodes@),
        x < tree.nodes@.len(),
    ensures
        r == exists|c: int| x <= c < tree.nodes@[x as int].end && #[trigger] raises_call(tree.nodes@, c),
{
    let ghost ns = tree.nodes@;
    let xe = tree.nodes[x].end;
    assert(end_at(depths(ns), x as int, xe as int));
    let mut c = x;
    while c < xe
        invariant
            ns == tree.nodes@,
            tree_wf(ns),
            x <= c <= xe <= ns.len(),
            xe == ns[x as int].end,
            forall|d: int| x <= d < c ==> !#[trigger] raises_call(ns, d),
        decreases xe - c,
    {
        if is_raises_call(tree, c) {
            return true;
        }
        c = c + 1;
    }
    false
}

/// Whether the `with` statement `w` has an item calling `raises` / `warns`.
fn with_statement_is_raises_or_warns(tree: &SyntaxTree, w: usize) -> (r: bool)
    requires
        tree_wf(tree.nodes@),
        w < tree.nodes@.len(),
    ensures
        r == with_raises(tree.nodes@, w as int),
{
    let ghost ns = tree.nodes@;
    let end = tree.nodes[w].end;
    assert(end_at(depths(ns), w as int, end as int));
    let mut x = w;
    while x < end
        invariant
            ns == tree.nodes@,
            tree_wf(ns),
            w <= x <= end <= ns.len(),
            end == ns[w as int].end,
            forall|y: int| w <= y < x ==> !#[trigger] raises_item(ns, y),
        decreases end - x,
    {
        if tree.kind_is(x, "with_item") && subtree_has_raises_call(tree, x) {
            proof {
                assert(raises_item(ns, x as int));
            }
            return true;
        }
        x = x + 1;
    }
    false
}

/// Classifies node `i` as an assert-shaped construct (see [`classify`]).
pub fn classify_assert_hit(tree: &SyntaxTree, i: usize, helpers: Option<&Vec<String>>) -> (r: Option<AssertHit>)
    requires
        tree_wf(tree.nodes@),
        i < tree.nodes@.len(),
    ensures
        r == classify(tree.nodes@, i as int, helpers_view(helpers)),
{
    reveal(classify);
    if tree.kind_is(i, "assert_statement") {
        if named_child_count(tree, i) <= 1 {
            Some(AssertHit::BareAssert(i))
        } else {
            Some(AssertHit::MessageAssert(i))
        }
    } else if tree.kind_is(i, "call") {
        match call_final_name(tree, i) {
            Some(n) => {
                if is_assertion_helper_name(n.as_str(), helpers) {
                    Some(AssertHit::HelperCall(i))
                } else {
                    None
                }
            },
            None => None,
        }
    } else if tree.kind_is(i, "with_statement") {
        if with_statement_is_raises_or_warns(tree, i) {
            Some(AssertHit::RaisesContext(i))
        } else {
            None
        }
    } else {
        None
    }
}

/// The assert-shaped constructs in the subtree of `body`, in source order.
pub open spec fn assert_hits(ns: Seq<SyntaxNode>, body: int, lo: int, helpers: Option<Seq<Seq<char>>>) -> Seq<AssertHit>
    decreases ns[body].end - lo,
{
    if lo >= ns[body].end || lo < body {
        Seq::empty()
    } else {
        match classify(ns, lo, helpers) {
            Some(h) => seq![h] + assert_hits(ns, body, lo + 1, helpers),
            None => assert_hits(ns, body, lo + 1, helpers),
        }
    }
}

/// Every assert-shaped construct in the subtree of `body` (the body itself
/// included), in source order.
pub fn collect_asserts(tree: &SyntaxTree, body: usize, helpers: &Vec<String>) -> (r: Vec<AssertHit>)
    requires
        tree_wf(tree.nodes@),
        body < tree.nodes@.len(),
    ensures
        r@ == assert_hits(tree.nodes@, body as int, body as int, Some(names_view(helpers@))),
{
    let ghost ns = tree.nodes@;
    let ghost hs = Some(names_view(helpers@));
    let end = tree.nodes[body].end;
    assert(end_at(depths(ns), body as int, end as int));
    let mut out: Vec<AssertHit> = Vec::new();
    let mut i = body;
    while i < end
        invariant
            ns == tree.nodes@,
            tree_wf(ns),
            body <= i <= end <= ns.len(),
            end == ns[body as int].end,
            hs == Some(names_view(helpers@)),
            assert_hits(ns, body as int, body as int, hs) == out@ + assert_hits(ns, body as int, i as int, hs),
        decreases end - i,
    {
        let h = classify_assert_hit(tree, i, Some(helpers));
        let ghost before = out@;
        match h {
            Some(x) => {
                out.push(x);
                proof {
                    assert(out@ + assert_hits(ns, body as int, i + 1, hs) =~= before + assert_hits(
                        ns,
                        body as int,
                        i as int,
                        hs,
                    ));
                }
            },
            None => {},
        }
        i = i + 1;
    }
    proof {
        assert(out@ + assert_hits(ns, body as int, i as int, hs) =~= out@);
    }
    out
}

/// The subtree of `body` holds an assert-shaped construct.
pub open spec fn any_assert(ns: Seq<SyntaxNode>, body: int, helpers: Option<Seq<Seq<char>>>) -> bool {
    exists|j: int| body <= j < ns[body].end && (#[trigger] classify(ns, j, helpers)) is Some
}

/// Whether the subtree of `body` holds any assert-shaped construct; stops at
/// the first.
pub fn has_any_assert(tree: &SyntaxTree, body: usize, helpers: &Vec<String>) -> (r: bool)
    requires
        tree_wf(tree.nodes@),
        body < tree.nodes@.len(),
    ensures
        r == any_assert(tree.nodes@, body as int, Some(names_view(helpers@))),
{
    let ghost ns = tree.nodes@;
    let ghost hs = Some(names_view(helpers@));
    let end = tree.nodes[body].end;
    assert(end_at(depths(ns), body as int, end as int));
    let mut i = body;
    while i < end
        invariant
            ns == tree.nodes@,
            tree_wf(ns),
            body <= i <= end <= ns.len(),
            end == ns[body as int].end,
            hs == Some(names_view(helpers@)),
            forall|j: int| body <= j < i ==> (#[trigger] classify(ns, j, hs)) is None,
        decreases end - i,
    {
        if classify_assert_hit(tree, i, Some(helpers)).is_some() {
            return true;
        }
        i = i + 1;
    }
    false
}

/// The bare `assert` statements in the subtree of `body`, in source order.
pub open spec fn bare_asserts(ns: Seq<SyntaxNode>, body: int) -> Seq<usize> {
    pick(body, ns[body].end as int, |j: int| is_bare_assert(ns, j))
}

/// Every bare `assert` statement in the subtree of `body`, in source order.
pub fn collect_bare_asserts(tree: &SyntaxTree, body: usize) -> (r: Vec<usize>)
    requires
        tree_wf(tree.nodes@),
        body < tree.nodes@.len(),
    ensures
        r@ == bare_asserts(tree.nodes@, body as int),
        forall|k: int| 0 <= k < r@.len() ==> body <= #[trigger] r@[k] < tree.nodes@[body as int].end,
{
    let ghost ns = tree.nodes@;
    let ghost pr = |j: int| is_bare_assert(ns, j);
    let end = tree.nodes[body].end;
    assert(end_at(depths(ns), body as int, end as int));
    let mut out: Vec<usize> = Vec::new();
    let mut i = body;
    while i < end
        invariant
            ns == tree.nodes@,
            tree_wf(ns),
            body <= i <= end <= ns.len(),
            end == ns[body as int].end,
            pr == (|j: int| is_bare_assert(ns, j)),
            out@ == pick(body as int, i as int, pr),
            forall|k: int| 0 <= k < out@.len() ==> body <= #[trigger] out@[k] < end,
        decreases end - i,
    {
        if tree.kind_is(i, "assert_statement") && named_child_count(tree, i) <= 1 {
            out.push(i);
        }
        i = i + 1;
    }
    out
}

/// Number of bare asserts in the subtree of `body`, with the first of them.
pub fn count_bare_asserts_with_first(tree: &SyntaxTree, body: usize) -> (r: (usize, Option<usize>))
    requires
        tree_wf(tree.nodes@),
        body < tree.nodes@.len(),
    ensures
        r.0 == bare_asserts(tree.nodes@, body as int).len(),
        r.1 == (if r.0 == 0 {
            None
        } else {
            Some(bare_asserts(tree.nodes@, body as int)[0])
        }),
{
    let v = collect_bare_asserts(tree, body);
    if v.len() == 0 {
        (0, None)
    } else {
        (v.len(), Some(v[0]))
    }
}


/// The dotted segments an `identifier` / `attribute` chain names, left to
/// right: `["pytest", "mark", "skip"]` for `pytest.mark.skip`. `None` when
/// the chain holds anything else (a subscript, a call, ...).
pub open spec fn chain(ns: Seq<SyntaxNode>, e: int) -> Option<Seq<Seq<char>>>
    decreases ns.len() - e,
{
    if e < 0 || e >= ns.len() {
        None
    } else if kind(ns, e) == "identifier"@ {
        match text_of(ns, Some(e)) {
            Some(t) => Some(seq![t]),
            None => None,
        }
    } else if kind(ns, e) == "attribute"@ {
        match field_child(ns, e, "object"@) {
            Some(o) => if e < o < ns.len() {
                match chain(ns, o) {
                    Some(c) => match field_text_of(ns, e, "attribute"@) {
                        Some(a) => Some(c.push(a)),
                        None => None,
                    },
                    None => None,
                }
            } else {
                None
            },
            None => None,
        }
    } else {
        None
    }
}

/// The expression a decorator names: its first named child, or that child's
/// `function` when it is a call.
pub open spec fn decorator_expr(ns: Seq<SyntaxNode>, d: int) -> Option<int> {
    match first_named(ns, d) {
        Some(inner) => if kind(ns, inner) == "call"@ {
            field_child(ns, inner, "function"@)
        } else {
            Some(inner)
        },
        None => None,
    }
}

/// The dotted segments of decorator `d`; empty when it names no plain chain.
pub open spec fn decorator_segments(ns: Seq<SyntaxNode>, d: int) -> Seq<Seq<char>> {
    match decorator_expr(ns, d) {
        Some(e) => match chain(ns, e) {
            Some(c) => c,
            None => Seq::empty(),
        },
        None => Seq::empty(),
    }
}

/// Appends the segments of the chain at `e` to `out`; false when `e` is no
/// plain chain.
fn collect_chain_into(tree: &SyntaxTree, e: usize, out: &mut Vec<String>) -> (r: bool)
    requires
        tree_wf(tree.nodes@),
        e < tree.nodes@.len(),
    ensures
        r == chain(tree.nodes@, e as int) is Some,
        r ==> names_view(final(out)@) == names_view(old(out)@) + chain(tree.nodes@, e as int)->0,
    decreases tree.nodes@.len() - e,
{
    let ghost ns = tree.nodes@;
    if tree.kind_is(e, "identifier") {
        match tree.text_at(e) {
            Some(t) => {
                let ghost before = out@;
                out.push(t.clone());
                proof {
                    assert(names_view(out@) =~= names_view(before) + seq![t@]);
                }
                true
            },
            None => false,
        }
    } else if tree.kind_is(e, "attribute") {
        proof {
            lemma_field_child(ns, e as int, "object"@);
        }
        match tree.child_by_field(e, "object") {
            Some(o) => {
                if !collect_chain_into(tree, o, out) {
                    return false;
                }
                match field_text(tree, e, "attribute") {
                    Some(a) => {
                        let ghost before = out@;
                        out.push(a.clone());
                        proof {
                            assert(names_view(out@) =~= names_view(before) + seq![a@]);
                            let c = chain(ns, o as int)->0;
                            assert(names_view(before) + seq![a@] =~= names_view(old(out)@) + c.push(a@));
                        }
                        true
                    },
                    None => false,
                }
            },
            None => false,
        }
    } else {
        false
    }
}

/// The dotted segments of decorator `d`: `@pytest.mark.skip` and
/// `@pytest.mark.skip(reason="x")` both give `["pytest", "mark", "skip"]`;
/// anything but a plain chain gives an empty list.
pub fn decorator_chain_segments(tree: &SyntaxTree, d: usize) -> (r: Vec<String>)
    requires
        tree_wf(tree.nodes@),
        d < tree.nodes@.len(),
    ensures
        names_view(r@) == decorator_segments(tree.nodes@, d as int),
{
    let ghost ns = tree.nodes@;
    let inner = match first_named_child(tree, d) {
        Some(i) => i,
        None => {
            let v: Vec<String> = Vec::new();
            proof {
                assert(names_view(v@) =~= Seq::<Seq<char>>::empty());
            }
            return v;
        },
    };
    let expr = if tree.kind_is(inner, "call") {
        proof {
            lemma_field_child(ns, inner as int, "function"@);
        }
        match tree.child_by_field(inner, "function") {
            Some(f) => f,
            None => {
                let v: Vec<String> = Vec::new();
                proof {
                    assert(names_view(v@) =~= Seq::<Seq<char>>::empty());
                }
                return v;
            },
        }
    } else {
        inner
    };
    let mut out: Vec<String> = Vec::new();
    proof {
        assert(names_view(out@) =~= Seq::<Seq<char>>::empty());
    }
    if !collect_chain_into(tree, expr, &mut out) {
        let v: Vec<String> = Vec::new();
        proof {
            assert(names_view(v@) =~= Seq::<Seq<char>>::empty());
        }
        return v;
    }
    proof {
        assert(names_view(out@) =~= chain(ns, expr as int)->0);
    }
    out
}

/// Decorator `d` is `@pytest.mark.skip` or `@pytest.mark.xfail`, bare or called.
#[verifier::opaque]
pub open spec fn skip_decorator(ns: Seq<SyntaxNode>, d: int) -> bool {
    let s = decorator_segments(ns, d);
    s.len() == 3 && s[0] == "pytest"@ && s[1] == "mark"@ && (s[2] == "skip"@ || s[2] == "xfail"@)
}

/// Node `p` is a decorated definition with a skip or xfail decorator.
#[verifier::opaque]
pub open spec fn decorated_skip(ns: Seq<SyntaxNode>, p: Option<int>) -> bool {
    match p {
        Some(q) => kind(ns, q) == "decorated_definition"@ && exists|c: int|
            q < c < ns[q].end && named_child_of(ns, q, c) && kind(ns, c) == "decorator"@ && #[trigger] skip_decorator(
                ns,
                c,
            ),
        None => false,
    }
}

/// The nearest `class_definition` on the parent chain starting at `a`
/// (`a` included), up to the root.
pub open spec fn class_above(ns: Seq<SyntaxNode>, a: int) -> Option<int>
    decreases a,
{
    if a < 0 || a >= ns.len() {
        None
    } else if kind(ns, a) == "class_definition"@ {
        Some(a)
    } else if a == 0 || ns[a].parent >= a {
        None
    } else {
        class_above(ns, ns[a].parent as int)
    }
}

/// The nearest enclosing `class_definition` of node `i`.
pub open spec fn enclosing_class_of(ns: Seq<SyntaxNode>, i: int) -> Option<int> {
    if i == 0 {
        None
    } else {
        class_above(ns, ns[i].parent as int)
    }
}

/// The test function `t` carries `@pytest.mark.skip` / `@pytest.mark.xfail`,
/// itself or on its enclosing class.
pub open spec fn skip_or_xfail(ns: Seq<SyntaxNode>, t: int) -> bool {
    decorated_skip(ns, parent_of(ns, t)) || (enclosing_class_of(ns, t) matches Some(c) && decorated_skip(
        ns,
        parent_of(ns, c),
    ))
}

/// Whether decorator `d` is `@pytest.mark.skip` / `@pytest.mark.xfail`.
pub fn is_skip_or_xfail_decorator(tree: &SyntaxTree, d: usize) -> (r: bool)
    requires
        tree_wf(tree.nodes@),
        d < tree.nodes@.len(),
    ensures
        r == skip_decorator(tree.nodes@, d as int),
{
    reveal(skip_decorator);
    let s = decorator_chain_segments(tree, d);
    let ghost sv = names_view(s@);
    proof {
        assert(sv.len() == s@.len());
    }
    if s.len() != 3 {
        return false;
    }
    proof {
        assert(sv[0] == s@[0]@ && sv[1] == s@[1]@ && sv[2] == s@[2]@);
    }
    str_eq(s[0].as_str(), "pytest") && str_eq(s[1].as_str(), "mark") && (str_eq(s[2].as_str(), "skip")
        || str_eq(s[2].as_str(), "xfail"))
}

/// Whether node `p` (when present) is a decorated definition with a skip or
/// xfail decorator.
pub fn decorated_definition_has_skip_or_xfail(tree: &SyntaxTree, p: Option<usize>) -> (r: bool)
    requires
        tree_wf(tree.nodes@),
        p matches Some(q) ==> q < tree.nodes@.len(),
    ensures
        r == decorated_skip(
            tree.nodes@,
            match p {
                Some(q) => Some(q as int),
                None => None,
            },
        ),
{
    reveal(decorated_skip);
    let ghost ns = tree.nodes@;
    let q = match p {
        Some(q) => q,
        None => return false,
    };
    if !tree.kind_is(q, "decorated_definition") {
        return false;
    }
    let end = tree.nodes[q].end;
    assert(end_at(depths(ns), q as int, end as int));
    let mut c = q + 1;
    while c < end
        invariant
            ns == tree.nodes@,
            tree_wf(ns),
            q < c <= end <= ns.len(),
            end == ns[q as int].end,
            p == Some(q),
            kind(ns, q as int) == "decorated_definition"@,
            forall|c2: int|
                q < c2 < c && named_child_of(ns, q as int, c2) && kind(ns, c2) == "decorator"@ ==> !#[trigger] skip_decorator(
                    ns,
                    c2,
                ),
        decreases end - c,
    {
        if tree.nodes[c].parent == q && tree.nodes[c].named && tree.kind_is(c, "decorator")
            && is_skip_or_xfail_decorator(tree, c) {
            proof {
                reveal(decorated_skip);
                assert(named_child_of(ns, q as int, c as int));
            }
            return true;
        }
        c = c + 1;
    }
    false
}

/// Every index in `lo..hi` that satisfies `p` is in `pick(lo, hi, p)`, and
/// everything in it lies in the range and satisfies `p`.
pub proof fn lemma_pick_has(lo: int, hi: int, p: spec_fn(int) -> bool, c: int)
    requires
        0 <= lo,
        hi <= usize::MAX,
    ensures
        (lo <= c < hi && p(c)) ==> exists|j: int| 0 <= j < pick(lo, hi, p).len() && pick(lo, hi, p)[j] == c as usize,
        forall|j: int| 0 <= j < pick(lo, hi, p).len() ==> lo <= #[trigger] pick(lo, hi, p)[j] < hi && p(pick(lo, hi, p)[j] as int),
    decreases hi - lo,
{
    if hi > lo {
        lemma_pick_has(lo, hi - 1, p, c);
        let s = pick(lo, hi - 1, p);
        if p(hi - 1) {
            let t = s.push((hi - 1) as usize);
            assert(pick(lo, hi, p) == t);
            if c == hi - 1 {
                assert(t[s.len() as int] == c as usize);
            } else if lo <= c < hi - 1 && p(c) {
                let j = choose|j: int| 0 <= j < s.len() && s[j] == c as usize;
                assert(t[j] == c as usize);
            }
            assert forall|j: int| 0 <= j < t.len() implies lo <= #[trigger] t[j] < hi && p(t[j] as int) by {
                if j < s.len() {
                    assert(t[j] == s[j]);
                }
            }
        } else {
            assert(pick(lo, hi, p) == s);
        }
    }
}

/// The nearest enclosing `class_definition` of node `i`.
pub fn enclosing_class(tree: &SyntaxTree, i: usize) -> (r: Option<usize>)
    requires
        tree_wf(tree.nodes@),
        i < tree.nodes@.len(),
    ensures
        match enclosing_class_of(tree.nodes@, i as int) {
            Some(c) => (r matches Some(x) && x == c) && 0 <= c < tree.nodes@.len(),
            None => r is None,
        },
{
    let ghost ns = tree.nodes@;
    if i == 0 {
        return None;
    }
    let mut a = tree.nodes[i].parent;
    proof {
        lemma_parent(ns, i as int);
    }
    loop
        invariant
            ns == tree.nodes@,
            tree_wf(ns),
            a < ns.len(),
            enclosing_class_of(ns, i as int) == class_above(ns, a as int),
        decreases a,
    {
        if tree.kind_is(a, "class_definition") {
            return Some(a);
        }
        if a == 0 {
            return None;
        }
        proof {
            lemma_parent(ns, a as int);
        }
        a = tree.nodes[a].parent;
    }
}

/// Whether test function `t` is marked `@pytest.mark.skip` /
/// `@pytest.mark.xfail`, itself or through its enclosing class.
pub fn test_has_skip_or_xfail_decorator(tree: &SyntaxTree, t: usize) -> (r: bool)
    requires
        tree_wf(tree.nodes@),
        t < tree.nodes@.len(),
    ensures
        r == skip_or_xfail(tree.nodes@, t as int),
{
    let ghost ns = tree.nodes@;
    let p = if t == 0 {
        None
    } else {
        Some(tree.nodes[t].parent)
    };
    proof {
        if t > 0 {
            lemma_parent(ns, t as int);
        }
    }
    if decorated_definition_has_skip_or_xfail(tree, p) {
        return true;
    }
    match enclosing_class(tree, t) {
        Some(c) => {
            let cp = if c == 0 {
                None
            } else {
                Some(tree.nodes[c].parent)
            };
            proof {
                if c > 0 {
                    lemma_parent(ns, c as int);
                }
                assert(enclosing_class_of(ns, t as int) is Some);
                let cs = enclosing_class_of(ns, t as int)->0;
                assert(0 <= cs < ns.len());
                assert(ns.len() == tree.nodes.len());
                assert(c == cs as usize);
                assert(enclosing_class_of(ns, t as int) == Some(c as int));
                assert(parent_of(ns, c as int) == match cp {
                    Some(q) => Some(q as int),
                    None => None::<int>,
                });
            }
            decorated_definition_has_skip_or_xfail(tree, cp)
        },
        None => false,
    }
}

/// The outermost expression equivalent to `a`: climbs while the parent is a
/// `parenthesized_expression`.
pub open spec fn climb(ns: Seq<SyntaxNode>, a: int) -> int
    decreases a,
{
    if a <= 0 || a >= ns.len() || ns[a].parent >= a {
        a
    } else if kind(ns, ns[a].parent as int) == "parenthesized_expression"@ {
        climb(ns, ns[a].parent as int)
    } else {
        a
    }
}

/// Climbs past the `parenthesized_expression` wrappers around node `a`.
pub fn climb_past_parens(tree: &SyntaxTree, a: usize) -> (r: usize)
    requires
        tree_wf(tree.nodes@),
        a < tree.nodes@.len(),
    ensures
        r == climb(tree.nodes@, a as int),
        r < tree.nodes@.len(),
{
    let ghost ns = tree.nodes@;
    let mut cur = a;
    loop
        invariant
            ns == tree.nodes@,
            tree_wf(ns),
            cur < ns.len(),
            climb(ns, a as int) == climb(ns, cur as int),
        decreases cur,
    {
        if cur == 0 {
            return cur;
        }
        proof {
            lemma_parent(ns, cur as int);
        }
        let p = tree.nodes[cur].parent;
        if tree.kind_is(p, "parenthesized_expression") {
            cur = p;
        } else {
            return cur;
        }
    }
}

/// Statement `c` is a docstring: an `expression_statement` whose single named
/// child is a string.
pub open spec fn docstring_stmt(ns: Seq<SyntaxNode>, c: int) -> bool {
    kind(ns, c) == "expression_statement"@ && (first_named(ns, c) matches Some(inner) && kind(ns, inner)
        == "string"@ && named_kids(ns, c).len() == 1)
}

/// A named child of `b` that is neither a comment nor a docstring.
pub open spec fn real_stmt(ns: Seq<SyntaxNode>, b: int, c: int) -> bool {
    named_child_of(ns, b, c) && kind(ns, c) != "comment"@ && !docstring_stmt(ns, c)
}

/// `call` is `self.skipTest(...)`, `self.skip(...)` or `pytest.skip(...)`.
pub open spec fn runtime_skip_call(ns: Seq<SyntaxNode>, call: int) -> bool {
    match field_child(ns, call, "function"@) {
        Some(f) => kind(ns, f) == "attribute"@ && match field_child(ns, f, "object"@) {
            Some(o) => kind(ns, o) == "identifier"@ && (text_of(ns, Some(o)) matches Some(on) && (
            field_text_of(ns, f, "attribute"@) matches Some(an) && ((on == "self"@ && (an == "skipTest"@
                || an == "skip"@)) || (on == "pytest"@ && an == "skip"@)))),
            None => false,
        },
        None => false,
    }
}

/// The first real statement of test `t`'s body calls a runtime skip.
pub open spec fn runtime_skip(ns: Seq<SyntaxNode>, t: int) -> bool {
    match field_child(ns, t, "body"@) {
        Some(b) => match first_where(b + 1, ns[b].end as int, |c: int| real_stmt(ns, b, c)) {
            Some(c) => kind(ns, c) == "expression_statement"@ && (first_named(ns, c) matches Some(inner)
                && kind(ns, inner) == "call"@ && runtime_skip_call(ns, inner)),
            None => false,
        },
        None => false,
    }
}

/// Whether call `call` is `self.skipTest(...)`, `self.skip(...)` or
/// `pytest.skip(...)`.
fn call_is_runtime_skip(tree: &SyntaxTree, call: usize) -> (r: bool)
    requires
        tree_wf(tree.nodes@),
        call < tree.nodes@.len(),
    ensures
        r == runtime_skip_call(tree.nodes@, call as int),
{
    let ghost ns = tree.nodes@;
    proof {
        lemma_field_child(ns, call as int, "function"@);
    }
    let f = match tree.child_by_field(call, "function") {
        Some(f) => f,
        None => return false,
    };
    if !tree.kind_is(f, "attribute") {
        return false;
    }
    proof {
        lemma_field_child(ns, f as int, "object"@);
    }
    let o = match tree.child_by_field(f, "object") {
        Some(o) => o,
        None => return false,
    };
    if !tree.kind_is(o, "identifier") {
        return false;
    }
    let on = match tree.text_at(o) {
        Some(t) => t,
        None => return false,
    };
    let an = match field_text(tree, f, "attribute") {
        Some(t) => t,
        None => return false,
    };
    (str_eq(on.as_str(), "self") && (str_eq(an.as_str(), "skipTest") || str_eq(an.as_str(), "skip"))) || (
    str_eq(on.as_str(), "pytest") && str_eq(an.as_str(), "skip"))
}

/// Whether statement `c` is a docstring.
fn is_docstring_stmt(tree: &SyntaxTree, c: usize) -> (r: bool)
    requires
        tree_wf(tree.nodes@),
        c < tree.nodes@.len(),
    ensures
        r == docstring_stmt(tree.nodes@, c as int),
{
    if !tree.kind_is(c, "expression_statement") {
        return false;
    }
    match first_named_child(tree, c) {
        Some(inner) => tree.kind_is(inner, "string") && named_child_count(tree, c) == 1,
        None => false,
    }
}

/// Whether the first real statement of test `t`'s body (past comments and
/// docstrings) is `self.skipTest(...)`, `self.skip(...)` or `pytest.skip(...)`.
pub fn test_has_runtime_skip_call(tree: &SyntaxTree, t: usize) -> (r: bool)
    requires
        tree_wf(tree.nodes@),
        t < tree.nodes@.len(),
    ensures
        r == runtime_skip(tree.nodes@, t as int),
{
    let ghost ns = tree.nodes@;
    proof {
        lemma_field_child(ns, t as int, "body"@);
    }
    let b = match tree.child_by_field(t, "body") {
        Some(b) => b,
        None => return false,
    };
    let ghost pr = |c: int| real_stmt(ns, b as int, c);
    let end = tree.nodes[b].end;
    assert(end_at(depths(ns), b as int, end as int));
    let mut c = b + 1;
    while c < end
        invariant
            ns == tree.nodes@,
            tree_wf(ns),
            b < c <= end <= ns.len(),
            end == ns[b as int].end,
            field_child(ns, t as int, "body"@) == Some(b as int),
            pr == (|c: int| real_stmt(ns, b as int, c)),
            first_where(b + 1, end as int, pr) == first_where(c as int, end as int, pr),
        decreases end - c,
    {
        if tree.nodes[c].parent == b && tree.nodes[c].named && !tree.kind_is(c, "comment")
            && !is_docstring_stmt(tree, c) {
            if !tree.kind_is(c, "expression_statement") {
                return false;
            }
            return match first_named_child(tree, c) {
                Some(inner) => tree.kind_is(inner, "call") && call_is_runtime_skip(tree, inner),
                None => false,
            };
        }
        c = c + 1;
    }
    false
}


/// A helper defined inline (`def` or `lambda`): walks that skip helpers do
/// not enter it.
pub open spec fn helper_def(ns: Seq<SyntaxNode>, i: int) -> bool {
    kind(ns, i) == "function_definition"@ || kind(ns, i) == "lambda"@
}

/// Where a walk bounded by `end` resumes after skipping the subtree of `i`.
pub open spec fn skip_to(ns: Seq<SyntaxNode>, i: int, end: int) -> int {
    if i < ns[i].end <= end {
        ns[i].end as int
    } else {
        i + 1
    }
}

/// The first node satisfying `p` in the walk from `i` up to `end` that skips
/// the subtrees of inline helpers.
pub open spec fn first_from(ns: Seq<SyntaxNode>, end: int, i: int, p: spec_fn(int) -> bool) -> Option<int>
    decreases end - i,
{
    if i < 0 || i >= end || end > ns.len() {
        None
    } else if helper_def(ns, i) {
        first_from(ns, end, skip_to(ns, i, end), p)
    } else if p(i) {
        Some(i)
    } else {
        first_from(ns, end, i + 1, p)
    }
}

/// The first node satisfying `p` in a source-order walk of `root`'s subtree
/// (`root` included) that does not enter inline helpers.
pub open spec fn walk_first(ns: Seq<SyntaxNode>, root: int, p: spec_fn(int) -> bool) -> Option<int> {
    if p(root) {
        Some(root)
    } else {
        first_from(ns, ns[root].end as int, root + 1, p)
    }
}

/// Whether node `i` is an inline helper definition.
pub fn is_helper_def(tree: &SyntaxTree, i: usize) -> (r: bool)
    requires
        i < tree.nodes@.len(),
    ensures
        r == helper_def(tree.nodes@, i as int),
{
    tree.kind_is(i, "function_definition") || tree.kind_is(i, "lambda")
}

pub proof fn lemma_first_from_in(ns: Seq<SyntaxNode>, end: int, i: int, p: spec_fn(int) -> bool)
    ensures
        first_from(ns, end, i, p) matches Some(x) ==> i <= x < end && x < ns.len() && p(x),
    decreases end - i,
{
    if !(i < 0 || i >= end || end > ns.len()) {
        if helper_def(ns, i) {
            lemma_first_from_in(ns, end, skip_to(ns, i, end), p);
        } else if !p(i) {
            lemma_first_from_in(ns, end, i + 1, p);
        }
    }
}


/// The kinds of `prune` as plain text.
pub open spec fn kinds_view(prune: Seq<&str>) -> Seq<Seq<char>> {
    prune.map_values(|k: &str| k@)
}

/// The nodes a walk from index `i` up to `end` visits, in source order,
/// skipping the subtree of every node whose kind is in `prune`.
pub open spec fn walk_from(ns: Seq<SyntaxNode>, end: int, i: int, prune: Seq<Seq<char>>) -> Seq<usize>
    decreases end - i,
{
    if i < 0 || i >= end || end > ns.len() {
        Seq::empty()
    } else if prune.contains(kind(ns, i)) {
        walk_from(ns, end, skip_to(ns, i, end), prune)
    } else {
        seq![i as usize] + walk_from(ns, end, i + 1, prune)
    }
}

/// Whether the kind of node `i` is one of `prune`.
fn kind_in(tree: &SyntaxTree, i: usize, prune: &Vec<&str>) -> (r: bool)
    requires
        i < tree.nodes@.len(),
    ensures
        r == kinds_view(prune@).contains(kind(tree.nodes@, i as int)),
{
    let ghost kv = kinds_view(prune@);
    let mut j: usize = 0;
    while j < prune.len()
        invariant
            j <= prune@.len(),
            kv == kinds_view(prune@),
            kv.len() == prune@.len(),
            i < tree.nodes@.len(),
            forall|x: int| 0 <= x < j ==> kv[x] != kind(tree.nodes@, i as int),
        decreases prune.len() - j,
    {
        if tree.kind_is(i, prune[j]) {
            proof {
                assert(kv[j as int] == prune@[j as int]@);
                assert(kv.contains(kind(tree.nodes@, i as int)));
            }
            return true;
        }
        j = j + 1;
    }
    false
}

/// Every node of `root`'s subtree in source order, `root` first; the subtree
/// of a node whose kind is in `prune` is skipped whole (`root` itself is always
/// visited).
pub fn walk_descendants_pruned(tree: &SyntaxTree, root: usize, prune: &Vec<&str>) -> (r: Vec<usize>)
    requires
        tree_wf(tree.nodes@),
        root < tree.nodes@.len(),
    ensures
        r@ == seq![root] + walk_from(tree.nodes@, tree.nodes@[root as int].end as int, root + 1, kinds_view(prune@)),
{
    let ghost ns = tree.nodes@;
    let ghost pk = kinds_view(prune@);
    let end = tree.nodes[root].end;
    assert(end_at(depths(ns), root as int, end as int));
    let mut out: Vec<usize> = Vec::new();
    out.push(root);
    let mut i = root + 1;
    while i < end
        invariant
            ns == tree.nodes@,
            tree_wf(ns),
            root < i <= end <= ns.len(),
            end == ns[root as int].end,
            pk == kinds_view(prune@),
            seq![root] + walk_from(ns, end as int, root + 1, pk) == out@ + walk_from(ns, end as int, i as int, pk),
        decreases end - i,
    {
        if kind_in(tree, i, prune) {
            let next = tree.nodes[i].end;
            assert(end_at(depths(ns), i as int, next as int));
            proof {
                lemma_nest(ns, root as int, i as int);
            }
            i = next;
        } else {
            let ghost before = out@;
            out.push(i);
            proof {
                assert(before + walk_from(ns, end as int, i as int, pk) =~= out@ + walk_from(
                    ns,
                    end as int,
                    i + 1,
                    pk,
                ));
            }
            i = i + 1;
        }
    }
    proof {
        assert(out@ + walk_from(ns, end as int, i as int, pk) =~= out@);
    }
    out
}

/// Every node of `root`'s subtree in source order, `root` first.
pub fn walk_descendants(tree: &SyntaxTree, root: usize) -> (r: Vec<usize>)
    requires
        tree_wf(tree.nodes@),
        root < tree.nodes@.len(),
    ensures
        r@.len() == tree.nodes@[root as int].end - root,
        forall|k: int| 0 <= k < r@.len() ==> #[trigger] r@[k] == root + k,
{
    let ghost ns = tree.nodes@;
    let end = tree.nodes[root].end;
    assert(end_at(depths(ns), root as int, end as int));
    let mut out: Vec<usize> = Vec::new();
    let mut i = root;
    while i < end
        invariant
            root <= i <= end,
            end == ns[root as int].end,
            out@.len() == i - root,
            forall|k: int| 0 <= k < out@.len() ==> #[trigger] out@[k] == root + k,
        decreases end - i,
    {
        out.push(i);
        i = i + 1;
    }
    out
}

} // verus!
