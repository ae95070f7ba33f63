//! `ZR001 conditional-test-logic`: a test whose own control flow branches: an
//! `if`, `while` or `match`, a `try` with an `except`, or a `for` loop. Inline
//! helpers (`def`, `lambda`) are not looked into.
//!
//! Two kinds of loop do not count. A loop whose body is only assertions, with
//! assignments, comments and transparent `with` blocks in between and no
//! control flow anywhere, stands in for `@pytest.mark.parametrize`. And in a
//! test that asserts nothing at all, a loop of plain calls and assignments is
//! fixture-style cleanup. Tests marked skip/xfail, or skipped at run time, are
//! exempt. The finding sits on the first offending statement.
use vstd::prelude::*;
use crate::ast::{
    call_final_name, call_name, first_from, first_named, first_named_child, helper_def, is_helper_def, iter_test_functions,
    kind, lemma_first_from_in, named_child_of, names_view, runtime_skip, skip_or_xfail, skip_to, test_fns,
    test_has_runtime_skip_call, test_has_skip_or_xfail_decorator, walk_first,
};
use crate::report::Finding;
use crate::rules::{
    emitted, finding_for, lemma_emitted_push, lemma_emitted_trans, lemma_over_tests_all, lemma_over_tests_step,
    lemma_test_fns_in, over_tests, Context,
};
use crate::text::{starts_with, str_eq, str_starts_with};
use crate::tree::{depths, end_at, field_child, lemma_nest, tree_wf, SyntaxNode, SyntaxTree};

verus! {

/// Message of every `ZR001` finding.
pub const MESSAGE: &'static str = "test function has conditional logic (if/for/while/try)";

/// How a statement of a loop body reads, for the parametrize-substitute shape.
#[derive(Clone, Copy, PartialEq, Eq, Structural, Debug)]
pub enum BodyStatement {
    /// An assertion: an `assert`, a helper call, or a `with` that asserts.
    Assertion,
    /// An assignment, or a `with` holding only assignments.
    Assignment,
    Comment,
    /// Anything else.
    Other,
}

/// `name` is one of the context managers that assert a raise or a warning.
pub open spec fn raising_cm_name(name: Seq<char>) -> bool {
    name == "assertRaises"@ || name == "assertWarns"@ || name == "assertRaisesRegex"@ || name
        == "assertWarnsRegex"@ || name == "raises"@ || name == "warns"@
}

/// The value of `with_item` `x`: its `value` field, else its first named
/// child, else the item itself.
pub open spec fn item_value(ns: Seq<SyntaxNode>, x: int) -> int {
    match field_child(ns, x, "value"@) {
        Some(v) => v,
        None => match first_named(ns, x) {
            Some(v) => v,
            None => x,
        },
    }
}

/// The `with_item` `x` calls a raise- or warning-asserting context manager.
pub open spec fn item_raises(ns: Seq<SyntaxNode>, x: int) -> bool {
    let v = item_value(ns, x);
    kind(ns, v) == "call"@ && (call_name(ns, v) matches Some(n) && raising_cm_name(n))
}

/// The `with` statement `w` has, among its own items, one that asserts a
/// raise or warning.
pub open spec fn with_asserts(ns: Seq<SyntaxNode>, w: int) -> bool {
    exists|c: int|
        w < c < ns[w].end && named_child_of(ns, w, c) && #[trigger] with_child_raises(ns, c)
}

/// Named child `c` of a `with` statement is a raising item, or a clause holding one.
pub open spec fn with_child_raises(ns: Seq<SyntaxNode>, c: int) -> bool {
    if kind(ns, c) == "with_clause"@ {
        exists|x: int|
            c < x < ns[c].end && named_child_of(ns, c, x) && kind(ns, x) == "with_item"@ && #[trigger] item_raises(
                ns,
                x,
            )
    } else {
        kind(ns, c) == "with_item"@ && item_raises(ns, c)
    }
}

/// Flags gathered over the named children of a block: some child reads as
/// `Other`, some as `Assertion`, some as `Assertion` or `Assignment`, and
/// there is a child at all.
pub open spec fn flags_of(k: BodyStatement) -> (bool, bool, bool, bool) {
    (k == BodyStatement::Other, k == BodyStatement::Assertion, k == BodyStatement::Assertion || k
        == BodyStatement::Assignment, true)
}

pub open spec fn or_flags(a: (bool, bool, bool, bool), b: (bool, bool, bool, bool)) -> (bool, bool, bool, bool) {
    (a.0 || b.0, a.1 || b.1, a.2 || b.2, a.3 || b.3)
}

/// How statement `n` reads, with assertion helpers named by `hs`.
pub open spec fn stmt_class(ns: Seq<SyntaxNode>, hs: Seq<Seq<char>>, n: int) -> BodyStatement
    decreases ns.len() - n, 0int, 0int,
{
    if n < 0 || n >= ns.len() {
        BodyStatement::Other
    } else if kind(ns, n) == "assert_statement"@ {
        BodyStatement::Assertion
    } else if kind(ns, n) == "expression_statement"@ {
        match first_named(ns, n) {
            Some(inner) => if kind(ns, inner) == "call"@ {
                match call_name(ns, inner) {
                    Some(name) => if hs.contains(name) {
                        BodyStatement::Assertion
                    } else {
                        BodyStatement::Other
                    },
                    None => BodyStatement::Other,
                }
            } else if kind(ns, inner) == "assignment"@ || kind(ns, inner) == "augmented_assignment"@ {
                BodyStatement::Assignment
            } else {
                BodyStatement::Other
            },
            None => BodyStatement::Other,
        }
    } else if kind(ns, n) == "assignment"@ || kind(ns, n) == "augmented_assignment"@ {
        BodyStatement::Assignment
    } else if kind(ns, n) == "comment"@ {
        BodyStatement::Comment
    } else if kind(ns, n) == "with_statement"@ {
        if with_asserts(ns, n) {
            BodyStatement::Assertion
        } else {
            match field_child(ns, n, "body"@) {
                Some(b) => if n < b < ns.len() {
                    let fl = kids_flags(ns, hs, b, b + 1);
                    if !fl.3 || fl.0 || !fl.2 {
                        BodyStatement::Other
                    } else if fl.1 {
                        BodyStatement::Assertion
                    } else {
                        BodyStatement::Assignment
                    }
                } else {
                    BodyStatement::Other
                },
                None => BodyStatement::Other,
            }
        }
    } else {
        BodyStatement::Other
    }
}

/// The flags of the named children of block `b` from index `c` on.
pub open spec fn kids_flags(ns: Seq<SyntaxNode>, hs: Seq<Seq<char>>, b: int, c: int) -> (bool, bool, bool, bool)
    decreases ns.len() - b, 1int, ns[b].end - c,
{
    if b < 0 || b >= ns.len() || c <= b || c >= ns[b].end || ns[b].end > ns.len() {
        (false, false, false, false)
    } else if named_child_of(ns, b, c) {
        or_flags(flags_of(stmt_class(ns, hs, c)), kids_flags(ns, hs, b, c + 1))
    } else {
        kids_flags(ns, hs, b, c + 1)
    }
}

/// A control-flow statement.
pub open spec fn control_flow(ns: Seq<SyntaxNode>, n: int) -> bool {
    kind(ns, n) == "if_statement"@ || kind(ns, n) == "while_statement"@ || kind(ns, n) == "for_statement"@
        || kind(ns, n) == "try_statement"@ || kind(ns, n) == "match_statement"@
}

/// Block `b` holds control flow outside inline helpers.
pub open spec fn has_control_flow(ns: Seq<SyntaxNode>, b: int) -> bool {
    walk_first(ns, b, |n: int| control_flow(ns, n)) is Some
}

/// The `for` loop `f` stands in for parametrize: its body has statements,
/// no control flow, nothing that reads as `Other`, and some assertion.
pub open spec fn parametrize_substitute(ns: Seq<SyntaxNode>, hs: Seq<Seq<char>>, f: int) -> bool {
    match field_child(ns, f, "body"@) {
        Some(b) => {
            let fl = kids_flags(ns, hs, b, b + 1);
            fl.3 && !has_control_flow(ns, b) && !fl.0 && fl.1
        },
        None => false,
    }
}

/// Statement `c` is a plain call or assignment.
pub open spec fn cleanup_stmt(ns: Seq<SyntaxNode>, c: int) -> bool {
    if kind(ns, c) == "expression_statement"@ {
        first_named(ns, c) matches Some(inner) && (kind(ns, inner) == "call"@ || kind(ns, inner) == "assignment"@
            || kind(ns, inner) == "augmented_assignment"@)
    } else {
        kind(ns, c) == "assignment"@ || kind(ns, c) == "augmented_assignment"@
    }
}

/// The `for` loop `f` is cleanup: its body has statements, all plain calls or
/// assignments, and no control flow.
pub open spec fn pure_cleanup(ns: Seq<SyntaxNode>, f: int) -> bool {
    match field_child(ns, f, "body"@) {
        Some(b) => (exists|c: int| b < c < ns[b].end && #[trigger] named_child_of(ns, b, c)) && !has_control_flow(
            ns,
            b,
        ) && forall|c: int| b < c < ns[b].end && #[trigger] named_child_of(ns, b, c) ==> cleanup_stmt(ns, c),
        None => false,
    }
}

/// Node `n` is assert-shaped for the cleanup check: an `assert`, a call to a
/// helper (listed, or named `assert_*` / `_assert_*`), or a `with` that
/// asserts a raise or warning.
pub open spec fn assert_shaped(ns: Seq<SyntaxNode>, hs: Seq<Seq<char>>, n: int) -> bool {
    if kind(ns, n) == "assert_statement"@ {
        true
    } else if kind(ns, n) == "call"@ {
        call_name(ns, n) matches Some(name) && (hs.contains(name) || starts_with(name, "assert_"@) || starts_with(
            name,
            "_assert_"@,
        ))
    } else if kind(ns, n) == "with_statement"@ {
        with_asserts(ns, n)
    } else {
        false
    }
}

/// The `try` statement `t` has an `except` clause.
pub open spec fn has_except(ns: Seq<SyntaxNode>, t: int) -> bool {
    exists|c: int| t < c < ns[t].end && named_child_of(ns, t, c) && #[trigger] kind(ns, c) == "except_clause"@
}

/// Node `n` is branching that counts, in a test that asserts (`asserts`) or not.
pub open spec fn offends(ns: Seq<SyntaxNode>, hs: Seq<Seq<char>>, asserts: bool, n: int) -> bool {
    if kind(ns, n) == "if_statement"@ || kind(ns, n) == "while_statement"@ || kind(ns, n) == "match_statement"@ {
        true
    } else if kind(ns, n) == "try_statement"@ {
        has_except(ns, n)
    } else if kind(ns, n) == "for_statement"@ {
        !parametrize_substitute(ns, hs, n) && (asserts || !pure_cleanup(ns, n))
    } else {
        false
    }
}

/// `ZR001` entries of test `t`: the first offending statement of its body.
#[verifier::opaque]
pub open spec fn conditional_for(ns: Seq<SyntaxNode>, hs: Seq<Seq<char>>, t: int) -> Seq<(usize, Seq<char>)> {
    match field_child(ns, t, "body"@) {
        Some(b) => if skip_or_xfail(ns, t) || runtime_skip(ns, t) {
            Seq::empty()
        } else {
            let asserts = walk_first(ns, b, |n: int| assert_shaped(ns, hs, n)) is Some;
            match walk_first(ns, b, |n: int| offends(ns, hs, asserts, n)) {
                Some(o) => seq![(o as usize, MESSAGE@)],
                None => Seq::empty(),
            }
        },
        None => Seq::empty(),
    }
}

/// Every `ZR001` entry of a tree.
pub open spec fn conditional_findings(ns: Seq<SyntaxNode>, hs: Seq<Seq<char>>) -> Seq<(usize, Seq<char>)> {
    over_tests(test_fns(ns), |t: int| conditional_for(ns, hs, t))
}

/// Whether `name` is listed in `hs`.
fn listed(hs: &Vec<String>, name: &str) -> (r: bool)
    ensures
        r == names_view(hs@).contains(name@),
{
    let ghost v = names_view(hs@);
    let mut i: usize = 0;
    while i < hs.len()
        invariant
            i <= hs@.len(),
            v == names_view(hs@),
            v.len() == hs@.len(),
            forall|j: int| 0 <= j < i ==> v[j] != name@,
        decreases hs.len() - i,
    {
        if str_eq(hs[i].as_str(), name) {
            proof {
                assert(v[i as int] == hs@[i as int]@);
                assert(v.contains(name@));
            }
            return true;
        }
        i = i + 1;
    }
    false
}

/// Whether the `with_item` `x` calls a raise- or warning-asserting context manager.
fn item_is_raising(tree: &SyntaxTree, x: usize) -> (r: bool)
    requires
        tree_wf(tree.nodes@),
        x < tree.nodes@.len(),
    ensures
        r == item_raises(tree.nodes@, x as int),
{
    let v = match tree.child_by_field(x, "value") {
        Some(v) => v,
        None => match first_named_child(tree, x) {
            Some(v) => v,
            None => x,
        },
    };
    if !tree.kind_is(v, "call") {
        return false;
    }
    match call_final_name(tree, v) {
        Some(n) => {
            let s = n.as_str();
            str_eq(s, "assertRaises") || str_eq(s, "assertWarns") || str_eq(s, "assertRaisesRegex") || str_eq(
                s,
                "assertWarnsRegex",
            ) || str_eq(s, "raises") || str_eq(s, "warns")
        },
        None => false,
    }
}

/// Whether named child `c` of a `with` statement is a raising item or a
/// clause holding one.
fn child_is_raising(tree: &SyntaxTree, c: usize) -> (r: bool)
    requires
        tree_wf(tree.nodes@),
        c < tree.nodes@.len(),
    ensures
        r == with_child_raises(tree.nodes@, c as int),
{
    let ghost ns = tree.nodes@;
    if tree.kind_is(c, "with_clause") {
        let end = tree.nodes[c].end;
        assert(end_at(depths(ns), c as int, end as int));
        let mut x = c + 1;
        while x < end
            invariant
                ns == tree.nodes@,
                tree_wf(ns),
                c < x <= end <= ns.len(),
                end == ns[c as int].end,
                kind(ns, c as int) == "with_clause"@,
                forall|y: int|
                    c < y < x && named_child_of(ns, c as int, y) && kind(ns, y) == "with_item"@ ==> !#[trigger] item_raises(
                        ns,
                        y,
                    ),
            decreases end - x,
        {
            if tree.nodes[x].parent == c && tree.nodes[x].named && tree.kind_is(x, "with_item") && item_is_raising(
                tree,
                x,
            ) {
                return true;
            }
            x = x + 1;
        }
        false
    } else {
        tree.kind_is(c, "with_item") && item_is_raising(tree, c)
    }
}

/// Whether the `with` statement `w` asserts a raise or warning through its own items.
fn with_item_is_assertion_context_manager(tree: &SyntaxTree, w: usize) -> (r: bool)
    requires
        tree_wf(tree.nodes@),
        w < tree.nodes@.len(),
    ensures
        r == with_asserts(tree.nodes@, w as int),
{
    let ghost ns = tree.nodes@;
    let end = tree.nodes[w].end;
    assert(end_at(depths(ns), w as int, end as int));
    let mut c = w + 1;
    while c < end
        invariant
            ns == tree.nodes@,
            tree_wf(ns),
            w < c <= end <= ns.len(),
            end == ns[w as int].end,
            forall|y: int| w < y < c && named_child_of(ns, w as int, y) ==> !#[trigger] with_child_raises(ns, y),
        decreases end - c,
    {
        if tree.nodes[c].parent == w && tree.nodes[c].named && child_is_raising(tree, c) {
            return true;
        }
        c = c + 1;
    }
    false
}

/// How statement `n` reads (see [`stmt_class`]).
fn classify_for_body_statement(tree: &SyntaxTree, hs: &Vec<String>, n: usize) -> (r: BodyStatement)
    requires
        tree_wf(tree.nodes@),
        n < tree.nodes@.len(),
    ensures
        r == stmt_class(tree.nodes@, names_view(hs@), n as int),
    decreases tree.nodes@.len() - n, 0int, 0int,
{
    let ghost ns = tree.nodes@;
    if tree.kind_is(n, "assert_statement") {
        BodyStatement::Assertion
    } else if tree.kind_is(n, "expression_statement") {
        match first_named_child(tree, n) {
            Some(inner) => {
                if tree.kind_is(inner, "call") {
                    match call_final_name(tree, inner) {
                        Some(name) => if listed(hs, name.as_str()) {
                            BodyStatement::Assertion
                        } else {
                            BodyStatement::Other
                        },
                        None => BodyStatement::Other,
                    }
                } else if tree.kind_is(inner, "assignment") || tree.kind_is(inner, "augmented_assignment") {
                    BodyStatement::Assignment
                } else {
                    BodyStatement::Other
                }
            },
            None => BodyStatement::Other,
        }
    } else if tree.kind_is(n, "assignment") || tree.kind_is(n, "augmented_assignment") {
        BodyStatement::Assignment
    } else if tree.kind_is(n, "comment") {
        BodyStatement::Comment
    } else if tree.kind_is(n, "with_statement") {
        if with_item_is_assertion_context_manager(tree, n) {
            BodyStatement::Assertion
        } else {
            match tree.child_by_field(n, "body") {
                Some(b) => {
                    let fl = block_flags(tree, hs, b);
                    if !fl.3 || fl.0 || !fl.2 {
                        BodyStatement::Other
                    } else if fl.1 {
                        BodyStatement::Assertion
                    } else {
                        BodyStatement::Assignment
                    }
                },
                None => BodyStatement::Other,
            }
        }
    } else {
        BodyStatement::Other
    }
}

/// The flags of the named children of block `b` (see [`kids_flags`]).
fn block_flags(tree: &SyntaxTree, hs: &Vec<String>, b: usize) -> (r: (bool, bool, bool, bool))
    requires
        tree_wf(tree.nodes@),
        b < tree.nodes@.len(),
    ensures
        r == kids_flags(tree.nodes@, names_view(hs@), b as int, b + 1),
    decreases tree.nodes@.len() - b, 1int, 0int,
{
    let ghost ns = tree.nodes@;
    let ghost v = names_view(hs@);
    let end = tree.nodes[b].end;
    assert(end_at(depths(ns), b as int, end as int));
    let mut acc = (false, false, false, false);
    let mut c = b + 1;
    while c < end
        invariant
            ns == tree.nodes@,
            tree_wf(ns),
            v == names_view(hs@),
            b < c <= end <= ns.len(),
            end == ns[b as int].end,
            kids_flags(ns, v, b as int, b + 1) == or_flags(acc, kids_flags(ns, v, b as int, c as int)),
        decreases end - c,
    {
        if tree.nodes[c].parent == b && tree.nodes[c].named {
            let k = classify_for_body_statement(tree, hs, c);
            let o = match k {
                BodyStatement::Other => true,
                _ => false,
            };
            let a = match k {
                BodyStatement::Assertion => true,
                _ => false,
            };
            let nc = match k {
                BodyStatement::Assertion => true,
                BodyStatement::Assignment => true,
                _ => false,
            };
            acc = (acc.0 || o, acc.1 || a, acc.2 || nc, true);
        }
        c = c + 1;
    }
    acc
}

/// Whether block `b` holds control flow outside inline helpers.
fn loop_body_has_control_flow(tree: &SyntaxTree, b: usize) -> (r: bool)
    requires
        tree_wf(tree.nodes@),
        b < tree.nodes@.len(),
    ensures
        r == has_control_flow(tree.nodes@, b as int),
{
    let ghost ns = tree.nodes@;
    let ghost p = |n: int| control_flow(ns, n);
    if is_control_flow(tree, b) {
        return true;
    }
    let end = tree.nodes[b].end;
    assert(end_at(depths(ns), b as int, end as int));
    let mut i = b + 1;
    while i < end
        invariant
            ns == tree.nodes@,
            tree_wf(ns),
            b < i <= end <= ns.len(),
            end == ns[b as int].end,
            p == (|n: int| control_flow(ns, n)),
            first_from(ns, end as int, b + 1, p) == first_from(ns, end as int, i as int, p),
        decreases end - i,
    {
        if is_helper_def(tree, i) {
            let next = tree.nodes[i].end;
            assert(end_at(depths(ns), i as int, next as int));
            proof {
                lemma_nest(ns, b as int, i as int);
            }
            i = next;
        } else {
            if is_control_flow(tree, i) {
                return true;
            }
            i = i + 1;
        }
    }
    false
}

fn is_control_flow(tree: &SyntaxTree, n: usize) -> (r: bool)
    requires
        n < tree.nodes@.len(),
    ensures
        r == control_flow(tree.nodes@, n as int),
{
    tree.kind_is(n, "if_statement") || tree.kind_is(n, "while_statement") || tree.kind_is(n, "for_statement")
        || tree.kind_is(n, "try_statement") || tree.kind_is(n, "match_statement")
}

/// Whether the `for` loop `f` stands in for parametrize.
fn for_body_is_parametrize_substitute(tree: &SyntaxTree, hs: &Vec<String>, f: usize) -> (r: bool)
    requires
        tree_wf(tree.nodes@),
        f < tree.nodes@.len(),
    ensures
        r == parametrize_substitute(tree.nodes@, names_view(hs@), f as int),
{
    let b = match tree.child_by_field(f, "body") {
        Some(b) => b,
        None => return false,
    };
    let fl = block_flags(tree, hs, b);
    if !fl.3 {
        return false;
    }
    if loop_body_has_control_flow(tree, b) {
        return false;
    }
    !fl.0 && fl.1
}

/// Whether statement `c` is a plain call or assignment.
fn is_cleanup_stmt(tree: &SyntaxTree, c: usize) -> (r: bool)
    requires
        tree_wf(tree.nodes@),
        c < tree.nodes@.len(),
    ensures
        r == cleanup_stmt(tree.nodes@, c as int),
{
    if tree.kind_is(c, "expression_statement") {
        match first_named_child(tree, c) {
            Some(inner) => tree.kind_is(inner, "call") || tree.kind_is(inner, "assignment") || tree.kind_is(
                inner,
                "augmented_assignment",
            ),
            None => false,
        }
    } else {
        tree.kind_is(c, "assignment") || tree.kind_is(c, "augmented_assignment")
    }
}

/// Whether the `for` loop `f` is cleanup.
fn for_body_is_pure_cleanup(tree: &SyntaxTree, f: usize) -> (r: bool)
    requires
        tree_wf(tree.nodes@),
        f < tree.nodes@.len(),
    ensures
        r == pure_cleanup(tree.nodes@, f as int),
{
    let ghost ns = tree.nodes@;
    let b = match tree.child_by_field(f, "body") {
        Some(b) => b,
        None => return false,
    };
    let end = tree.nodes[b].end;
    assert(end_at(depths(ns), b as int, end as int));
    let mut any = false;
    let mut c = b + 1;
    while c < end
        invariant
            ns == tree.nodes@,
            tree_wf(ns),
            b < c <= end <= ns.len(),
            end == ns[b as int].end,
            field_child(ns, f as int, "body"@) == Some(b as int),
            any == exists|d: int| b < d < c && #[trigger] named_child_of(ns, b as int, d),
            forall|d: int| b < d < c && #[trigger] named_child_of(ns, b as int, d) ==> cleanup_stmt(ns, d),
        decreases end - c,
    {
        if tree.nodes[c].parent == b && tree.nodes[c].named {
            assert(named_child_of(ns, b as int, c as int));
            any = true;
            if !is_cleanup_stmt(tree, c) {
                return false;
            }
        }
        c = c + 1;
    }
    if !any {
        return false;
    }
    !loop_body_has_control_flow(tree, b)
}

/// Whether node `n` is assert-shaped for the cleanup check.
fn is_assert_shaped(tree: &SyntaxTree, hs: &Vec<String>, n: usize) -> (r: bool)
    requires
        tree_wf(tree.nodes@),
        n < tree.nodes@.len(),
    ensures
        r == assert_shaped(tree.nodes@, names_view(hs@), n as int),
{
    if tree.kind_is(n, "assert_statement") {
        true
    } else if tree.kind_is(n, "call") {
        match call_final_name(tree, n) {
            Some(name) => listed(hs, name.as_str()) || str_starts_with(name.as_str(), "assert_") || str_starts_with(
                name.as_str(),
                "_assert_",
            ),
            None => false,
        }
    } else if tree.kind_is(n, "with_statement") {
        with_item_is_assertion_context_manager(tree, n)
    } else {
        false
    }
}

/// Whether the `try` statement `t` has an `except` clause.
fn has_except_clause(tree: &SyntaxTree, t: usize) -> (r: bool)
    requires
        tree_wf(tree.nodes@),
        t < tree.nodes@.len(),
    ensures
        r == has_except(tree.nodes@, t as int),
{
    let ghost ns = tree.nodes@;
    let end = tree.nodes[t].end;
    assert(end_at(depths(ns), t as int, end as int));
    let mut c = t + 1;
    while c < end
        invariant
            ns == tree.nodes@,
            t < c <= end <= ns.len(),
            end == ns[t as int].end,
            forall|d: int| t < d < c && named_child_of(ns, t as int, d) ==> #[trigger] kind(ns, d) != "except_clause"@,
        decreases end - c,
    {
        if tree.nodes[c].parent == t && tree.nodes[c].named && tree.kind_is(c, "except_clause") {
            proof {
                assert(named_child_of(ns, t as int, c as int));
                assert(kind(ns, c as int) == "except_clause"@);
            }
            return true;
        }
        c = c + 1;
    }
    false
}

/// Whether node `n` is branching that counts.
fn is_offending(tree: &SyntaxTree, hs: &Vec<String>, asserts: bool, n: usize) -> (r: bool)
    requires
        tree_wf(tree.nodes@),
        n < tree.nodes@.len(),
    ensures
        r == offends(tree.nodes@, names_view(hs@), asserts, n as int),
{
    if tree.kind_is(n, "if_statement") || tree.kind_is(n, "while_statement") || tree.kind_is(n, "match_statement") {
        true
    } else if tree.kind_is(n, "try_statement") {
        has_except_clause(tree, n)
    } else if tree.kind_is(n, "for_statement") {
        if for_body_is_parametrize_substitute(tree, hs, n) {
            false
        } else {
            asserts || !for_body_is_pure_cleanup(tree, n)
        }
    } else {
        false
    }
}

/// Whether the body `b` has an assert-shaped node outside inline helpers.
fn outer_test_body_has_assert(tree: &SyntaxTree, hs: &Vec<String>, b: usize) -> (r: bool)
    requires
        tree_wf(tree.nodes@),
        b < tree.nodes@.len(),
    ensures
        r == (walk_first(tree.nodes@, b as int, |n: int| assert_shaped(tree.nodes@, names_view(hs@), n)) is Some),
{
    let ghost ns = tree.nodes@;
    let ghost p = |n: int| assert_shaped(ns, names_view(hs@), n);
    if is_assert_shaped(tree, hs, b) {
        return true;
    }
    let end = tree.nodes[b].end;
    assert(end_at(depths(ns), b as int, end as int));
    let mut i = b + 1;
    while i < end
        invariant
            ns == tree.nodes@,
            tree_wf(ns),
            b < i <= end <= ns.len(),
            end == ns[b as int].end,
            p == (|n: int| assert_shaped(ns, names_view(hs@), n)),
            first_from(ns, end as int, b + 1, p) == first_from(ns, end as int, i as int, p),
        decreases end - i,
    {
        if is_helper_def(tree, i) {
            let next = tree.nodes[i].end;
            assert(end_at(depths(ns), i as int, next as int));
            proof {
                lemma_nest(ns, b as int, i as int);
            }
            i = next;
        } else {
            if is_assert_shaped(tree, hs, i) {
                return true;
            }
            i = i + 1;
        }
    }
    false
}

/// The first offending node of the body `b`, outside inline helpers.
fn find_first_conditional(tree: &SyntaxTree, hs: &Vec<String>, b: usize, asserts: bool) -> (r: Option<usize>)
    requires
        tree_wf(tree.nodes@),
        b < tree.nodes@.len(),
    ensures
        match walk_first(tree.nodes@, b as int, |n: int| offends(tree.nodes@, names_view(hs@), asserts, n)) {
            Some(o) => (r matches Some(x) && x == o) && o < tree.nodes@.len(),
            None => r is None,
        },
{
    let ghost ns = tree.nodes@;
    let ghost p = |n: int| offends(ns, names_view(hs@), asserts, n);
    if is_offending(tree, hs, asserts, b) {
        return Some(b);
    }
    let end = tree.nodes[b].end;
    assert(end_at(depths(ns), b as int, end as int));
    let mut i = b + 1;
    while i < end
        invariant
            ns == tree.nodes@,
            tree_wf(ns),
            b < i <= end <= ns.len(),
            end == ns[b as int].end,
            p == (|n: int| offends(ns, names_view(hs@), asserts, n)),
            !offends(ns, names_view(hs@), asserts, b as int),
            first_from(ns, end as int, b + 1, p) == first_from(ns, end as int, i as int, p),
        decreases end - i,
    {
        if is_helper_def(tree, i) {
            let next = tree.nodes[i].end;
            assert(end_at(depths(ns), i as int, next as int));
            proof {
                lemma_nest(ns, b as int, i as int);
            }
            i = next;
        } else {
            if is_offending(tree, hs, asserts, i) {
                return Some(i);
            }
            i = i + 1;
        }
    }
    None
}

/// Pushes the `ZR001` finding of test `t`, if it has one.
fn check_test(ctx: &Context, t: usize, out: &mut Vec<Finding>)
    requires
        ctx.wf(),
        t < ctx.tree.nodes@.len(),
    ensures
        emitted(
            old(out)@,
            final(out)@,
            "ZR001"@,
            ctx.file@,
            ctx.tree.nodes@,
            conditional_for(ctx.tree.nodes@, names_view(ctx.config.zr003.helpers@), t as int),
        ),
{
    reveal(conditional_for);
    let ghost ns = ctx.tree.nodes@;
    let hs = &ctx.config.zr003.helpers;
    let b = match ctx.tree.child_by_field(t, "body") {
        Some(b) => b,
        None => return,
    };
    if test_has_skip_or_xfail_decorator(ctx.tree, t) || test_has_runtime_skip_call(ctx.tree, t) {
        return;
    }
    let asserts = outer_test_body_has_assert(ctx.tree, hs, b);
    match find_first_conditional(ctx.tree, hs, b, asserts) {
        Some(o) => {
            let fd = finding_for(ctx.tree, o, "ZR001", MESSAGE.to_owned(), ctx.file);
            proof {
                lemma_emitted_push(old(out)@, out@, "ZR001"@, ctx.file@, ns, Seq::empty(), fd, (o, MESSAGE@));
                assert(Seq::<(usize, Seq<char>)>::empty().push((o, MESSAGE@)) =~= conditional_for(
                    ns,
                    names_view(hs@),
                    t as int,
                ));
            }
            out.push(fd);
        },
        None => {},
    }
}

/// `ZR001 conditional-test-logic`.
pub struct ConditionalRule;

impl ConditionalRule {
    pub fn code(&self) -> (r: &'static str)
        ensures
            r@ == "ZR001"@,
    {
        "ZR001"
    }

    pub fn name(&self) -> (r: &'static str)
        ensures
            r@ == "conditional-test-logic"@,
    {
        "conditional-test-logic"
    }

    /// Pushes one finding per test with branching logic, at its first
    /// offending statement.
    pub fn check(&self, ctx: &Context, out: &mut Vec<Finding>)
        requires
            ctx.wf(),
        ensures
            emitted(
                old(out)@,
                final(out)@,
                "ZR001"@,
                ctx.file@,
                ctx.tree.nodes@,
                conditional_findings(ctx.tree.nodes@, names_view(ctx.config.zr003.helpers@)),
            ),
    {
        let ghost ns = ctx.tree.nodes@;
        let ghost hs = names_view(ctx.config.zr003.helpers@);
        let ghost f = |t: int| conditional_for(ns, hs, t);
        let tests = iter_test_functions(ctx.tree);
        let ghost ts = tests@;
        let mut k: usize = 0;
        proof {
            assert(ts.take(0) =~= Seq::<usize>::empty());
            lemma_test_fns_in(ns);
        }
        while k < tests.len()
            invariant
                ns == ctx.tree.nodes@,
                ctx.wf(),
                ts == tests@,
                forall|i: int| 0 <= i < ts.len() ==> (#[trigger] ts[i]) < ns.len(),
                hs == names_view(ctx.config.zr003.helpers@),
                f == (|t: int| conditional_for(ns, hs, t)),
                k <= ts.len(),
                emitted(old(out)@, out@, "ZR001"@, ctx.file@, ns, over_tests(ts.take(k as int), f)),
            decreases tests.len() - k,
        {
            let t = tests[k];
            let ghost mid = out@;
            check_test(ctx, t, out);
            proof {
                lemma_over_tests_step(ts, f, k as int);
                lemma_emitted_trans(
                    old(out)@,
                    mid,
                    out@,
                    "ZR001"@,
                    ctx.file@,
                    ns,
                    over_tests(ts.take(k as int), f),
                    conditional_for(ns, hs, t as int),
                );
            }
            k = k + 1;
        }
        proof {
            lemma_over_tests_all(ts, f);
        }
    }
}

} // verus!
