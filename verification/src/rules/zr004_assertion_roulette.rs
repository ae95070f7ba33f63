//! `ZR004 assertion-roulette`: a test with more bare `assert` statements than
//! the configured maximum (`max_asserts`), unless every one of them is about
//! the same subject. A bare assert carries no message, so a failure among many
//! says little about which expectation broke.
//!
//! The subject of an assert is the root name of its operand: `record` for
//! `assert record.status == "ok"`, `self.result` past a `self` / `cls`
//! namespace, the container of `x in container`, the first positional argument
//! of a free function call (`len(rows)`), the receiver of a method call.
//! Tests marked skip/xfail, or skipped at run time, are exempt.
use vstd::prelude::*;
use crate::ast::{
    bare_asserts, collect_bare_asserts, first_named_child, iter_test_functions, kind, lemma_first_named, named_child_of,
    named_children, named_kids, runtime_skip, skip_or_xfail, test_fns, test_has_runtime_skip_call,
    test_has_skip_or_xfail_decorator,
};
use crate::report::Finding;
use crate::rules::{
    emitted, finding_for, lemma_emitted_push, lemma_emitted_trans, lemma_over_tests_all, lemma_over_tests_step, lemma_test_fns_in,
    over_tests, Context,
};
use crate::text::{decimal, push_decimal, push_str, str_eq, string_of};
use crate::tree::{depths, desc, end_at, field_child, first_where, text_of, tree_wf, SyntaxNode, SyntaxTree};

verus! {

/// The first named child of `p` that is not a comment.
pub open spec fn first_named_non_comment(ns: Seq<SyntaxNode>, p: int) -> Option<int> {
    first_where(p + 1, ns[p].end as int, |c: int| named_child_of(ns, p, c) && kind(ns, c) != "comment"@)
}

/// `self` and `cls`: namespaces a test reaches its subjects through.
pub open spec fn is_namespace(s: Seq<char>) -> bool {
    s == "self"@ || s == "cls"@
}

/// The node naming the subject of expression `n`: an identifier, or an
/// attribute on a `self` / `cls` namespace, found by descending into the
/// operand the expression is about. `None` when the descent ends in something
/// unnamed.
pub open spec fn root_name(ns: Seq<SyntaxNode>, n: int) -> Option<int>
    decreases ns.len() - n,
{
    if n < 0 || n >= ns.len() {
        None
    } else if kind(ns, n) == "identifier"@ {
        Some(n)
    } else if kind(ns, n) == "attribute"@ {
        match field_child(ns, n, "object"@) {
            Some(o) => if n < o < ns.len() {
                if kind(ns, o) == "identifier"@ && (text_of(ns, Some(o)) matches Some(t) && is_namespace(t)) {
                    Some(n)
                } else {
                    root_name(ns, o)
                }
            } else {
                None
            },
            None => None,
        }
    } else if kind(ns, n) == "subscript"@ {
        match field_child(ns, n, "value"@) {
            Some(v) => if n < v < ns.len() {
                root_name(ns, v)
            } else {
                None
            },
            None => None,
        }
    } else if kind(ns, n) == "call"@ {
        match field_child(ns, n, "function"@) {
            Some(f) => if n < f < ns.len() {
                if kind(ns, f) == "identifier"@ {
                    match field_child(ns, n, "arguments"@) {
                        Some(a) => if kind(ns, a) == "generator_expression"@ {
                            None
                        } else {
                            match first_named_non_comment(ns, a) {
                                Some(x) => if n < x < ns.len() && kind(ns, x) != "keyword_argument"@ {
                                    root_name(ns, x)
                                } else {
                                    None
                                },
                                None => None,
                            }
                        },
                        None => None,
                    }
                } else {
                    root_name(ns, f)
                }
            } else {
                None
            },
            None => None,
        }
    } else if kind(ns, n) == "comparison_operator"@ {
        let index: int = match field_child(ns, n, "operators"@) {
            Some(op) => if kind(ns, op) == "in"@ || kind(ns, op) == "not in"@ {
                1
            } else {
                0
            },
            None => 0,
        };
        if index < named_kids(ns, n).len() && n < named_kids(ns, n)[index] < ns.len() {
            root_name(ns, named_kids(ns, n)[index] as int)
        } else {
            None
        }
    } else if kind(ns, n) == "not_operator"@ || kind(ns, n) == "unary_operator"@ {
        match field_child(ns, n, "argument"@) {
            Some(a) => if n < a < ns.len() {
                root_name(ns, a)
            } else {
                None
            },
            None => None,
        }
    } else if kind(ns, n) == "boolean_operator"@ {
        match field_child(ns, n, "left"@) {
            Some(l) => if n < l < ns.len() {
                root_name(ns, l)
            } else {
                None
            },
            None => None,
        }
    } else if kind(ns, n) == "parenthesized_expression"@ || kind(ns, n) == "await"@ {
        match first_named_non_comment(ns, n) {
            Some(x) => if n < x < ns.len() {
                root_name(ns, x)
            } else {
                None
            },
            None => None,
        }
    } else {
        None
    }
}

/// The subject of the bare assert `a`: the text of the root name of its
/// operand, unless that is a bare `self` / `cls`.
#[verifier::opaque]
pub open spec fn subject(ns: Seq<SyntaxNode>, a: int) -> Option<Seq<char>> {
    match first_named_non_comment(ns, a) {
        Some(e) => match root_name(ns, e) {
            Some(r) => match text_of(ns, Some(r)) {
                Some(t) => if kind(ns, r) == "identifier"@ && is_namespace(t) {
                    None
                } else {
                    Some(t)
                },
                None => None,
            },
            None => None,
        },
        None => None,
    }
}

/// The asserts `xs` all have a subject, the same one.
#[verifier::opaque]
pub open spec fn one_subject(ns: Seq<SyntaxNode>, xs: Seq<usize>) -> bool {
    xs.len() > 0 && (subject(ns, xs[0] as int) matches Some(s) && forall|j: int|
        0 <= j < xs.len() ==> subject(ns, #[trigger] xs[j] as int) == Some(s))
}

/// The message for `n` bare asserts over a maximum of `m`.
pub open spec fn roulette_message(n: nat, m: nat) -> Seq<char> {
    "test has too many bare assertions about more than one subject ("@ + decimal(n) + " > "@ + decimal(m)
        + ")"@
}

/// `ZR004` entries of test `t`: its first bare assert, when it has more than
/// `max` of them about more than one subject and is not skipped.
#[verifier::opaque]
pub open spec fn roulette_for(ns: Seq<SyntaxNode>, max: nat, t: int) -> Seq<(usize, Seq<char>)> {
    match field_child(ns, t, "body"@) {
        Some(b) => {
            let xs = bare_asserts(ns, b);
            if !skip_or_xfail(ns, t) && !runtime_skip(ns, t) && xs.len() > max && !one_subject(ns, xs) {
                seq![(xs[0], roulette_message(xs.len(), max))]
            } else {
                Seq::empty()
            }
        },
        None => Seq::empty(),
    }
}

/// Every `ZR004` entry of a tree.
pub open spec fn roulette_findings(ns: Seq<SyntaxNode>, max: nat) -> Seq<(usize, Seq<char>)> {
    over_tests(test_fns(ns), |t: int| roulette_for(ns, max, t))
}

/// The first named non-comment child of `p`.
fn first_named_non_comment_child(tree: &SyntaxTree, p: usize) -> (r: Option<usize>)
    requires
        tree_wf(tree.nodes@),
        p < tree.nodes@.len(),
    ensures
        match first_named_non_comment(tree.nodes@, p as int) {
            Some(c) => (r matches Some(x) && x == c) && p < c < tree.nodes@.len(),
            None => r is None,
        },
{
    let ghost ns = tree.nodes@;
    let ghost pr = |c: int| named_child_of(ns, p as int, c) && kind(ns, c) != "comment"@;
    let end = tree.nodes[p].end;
    assert(end_at(depths(ns), p as int, end as int));
    let mut c = p + 1;
    while c < end
        invariant
            ns == tree.nodes@,
            p < c <= end <= ns.len(),
            end == ns[p as int].end,
            pr == (|c: int| named_child_of(ns, p as int, c) && kind(ns, c) != "comment"@),
            first_where(p + 1, end as int, pr) == first_where(c as int, end as int, pr),
        decreases end - c,
    {
        if tree.nodes[c].parent == p && tree.nodes[c].named && !tree.kind_is(c, "comment") {
            return Some(c);
        }
        c = c + 1;
    }
    None
}

/// The node naming the subject of expression `n` (see [`root_name`]).
fn root_name_node(tree: &SyntaxTree, n: usize) -> (r: Option<usize>)
    requires
        tree_wf(tree.nodes@),
        n < tree.nodes@.len(),
    ensures
        match root_name(tree.nodes@, n as int) {
            Some(x) => (r matches Some(y) && y == x) && 0 <= x < tree.nodes@.len(),
            None => r is None,
        },
    decreases tree.nodes@.len() - n,
{
    let ghost ns = tree.nodes@;
    if tree.kind_is(n, "identifier") {
        Some(n)
    } else if tree.kind_is(n, "attribute") {
        let o = match tree.child_by_field(n, "object") {
            Some(o) => o,
            None => return None,
        };
        if tree.kind_is(o, "identifier") {
            match tree.text_at(o) {
                Some(t) => {
                    if str_eq(t.as_str(), "self") || str_eq(t.as_str(), "cls") {
                        return Some(n);
                    }
                },
                None => {},
            }
        }
        root_name_node(tree, o)
    } else if tree.kind_is(n, "subscript") {
        match tree.child_by_field(n, "value") {
            Some(v) => root_name_node(tree, v),
            None => None,
        }
    } else if tree.kind_is(n, "call") {
        let f = match tree.child_by_field(n, "function") {
            Some(f) => f,
            None => return None,
        };
        if tree.kind_is(f, "identifier") {
            let a = match tree.child_by_field(n, "arguments") {
                Some(a) => a,
                None => return None,
            };
            if tree.kind_is(a, "generator_expression") {
                return None;
            }
            match first_named_non_comment_child(tree, a) {
                Some(x) => {
                    if tree.kind_is(x, "keyword_argument") {
                        None
                    } else {
                        assert(n < x);
                        root_name_node(tree, x)
                    }
                },
                None => None,
            }
        } else {
            root_name_node(tree, f)
        }
    } else if tree.kind_is(n, "comparison_operator") {
        let index: usize = match tree.child_by_field(n, "operators") {
            Some(op) => if tree.kind_is(op, "in") || tree.kind_is(op, "not in") {
                1
            } else {
                0
            },
            None => 0,
        };
        let kids = named_children(tree, n);
        if index < kids.len() {
            let x = kids[index];
            assert(desc(ns, n as int, kids@[index as int] as int));
            root_name_node(tree, x)
        } else {
            None
        }
    } else if tree.kind_is(n, "not_operator") || tree.kind_is(n, "unary_operator") {
        match tree.child_by_field(n, "argument") {
            Some(a) => root_name_node(tree, a),
            None => None,
        }
    } else if tree.kind_is(n, "boolean_operator") {
        match tree.child_by_field(n, "left") {
            Some(l) => root_name_node(tree, l),
            None => None,
        }
    } else if tree.kind_is(n, "parenthesized_expression") || tree.kind_is(n, "await") {
        match first_named_non_comment_child(tree, n) {
            Some(x) => root_name_node(tree, x),
            None => None,
        }
    } else {
        None
    }
}

/// The subject of the bare assert `a` (see [`subject`]).
fn assert_subject<'a>(tree: &'a SyntaxTree, a: usize) -> (r: Option<&'a String>)
    requires
        tree_wf(tree.nodes@),
        a < tree.nodes@.len(),
    ensures
        match subject(tree.nodes@, a as int) {
            Some(s) => r matches Some(t) && t@ == s,
            None => r is None,
        },
{
    reveal(subject);
    let e = match first_named_non_comment_child(tree, a) {
        Some(e) => e,
        None => return None,
    };
    let root = match root_name_node(tree, e) {
        Some(x) => x,
        None => return None,
    };
    let text = match tree.text_at(root) {
        Some(t) => t,
        None => return None,
    };
    if tree.kind_is(root, "identifier") && (str_eq(text.as_str(), "self") || str_eq(text.as_str(), "cls")) {
        return None;
    }
    Some(text)
}

/// Whether the asserts `xs` all have a subject, the same one.
fn shares_one_subject(tree: &SyntaxTree, xs: &Vec<usize>) -> (r: bool)
    requires
        tree_wf(tree.nodes@),
        forall|j: int| 0 <= j < xs@.len() ==> #[trigger] xs@[j] < tree.nodes@.len(),
    ensures
        r == one_subject(tree.nodes@, xs@),
{
    reveal(one_subject);
    let ghost ns = tree.nodes@;
    if xs.len() == 0 {
        return false;
    }
    let first = match assert_subject(tree, xs[0]) {
        Some(s) => s,
        None => return false,
    };
    let mut j: usize = 1;
    while j < xs.len()
        invariant
            ns == tree.nodes@,
            tree_wf(ns),
            forall|i: int| 0 <= i < xs@.len() ==> #[trigger] xs@[i] < ns.len(),
            1 <= j <= xs@.len(),
            subject(ns, xs@[0] as int) == Some(first@),
            forall|i: int| 0 <= i < j ==> subject(ns, #[trigger] xs@[i] as int) == Some(first@),
        decreases xs.len() - j,
    {
        match assert_subject(tree, xs[j]) {
            Some(s) => {
                if !str_eq(s.as_str(), first.as_str()) {
                    proof {
                        reveal(one_subject);
                    }
                    return false;
                }
            },
            None => {
                proof {
                    reveal(one_subject);
                }
                return false;
            },
        }
        j = j + 1;
    }
    proof {
        reveal(one_subject);
    }
    true
}

/// Pushes the `ZR004` finding of test `t`, if it has one.
fn check_test(ctx: &Context, t: usize, max: usize, out: &mut Vec<Finding>)
    requires
        ctx.wf(),
        t < ctx.tree.nodes@.len(),
    ensures
        emitted(old(out)@, final(out)@, "ZR004"@, ctx.file@, ctx.tree.nodes@, roulette_for(ctx.tree.nodes@, max as nat, t as int)),
{
    reveal(roulette_for);
    let ghost ns = ctx.tree.nodes@;
    let b = match ctx.tree.child_by_field(t, "body") {
        Some(b) => b,
        None => return,
    };
    if test_has_skip_or_xfail_decorator(ctx.tree, t) || test_has_runtime_skip_call(ctx.tree, t) {
        return;
    }
    let xs = collect_bare_asserts(ctx.tree, b);
    let count = xs.len();
    if count <= max || shares_one_subject(ctx.tree, &xs) {
        return;
    }
    let first = xs[0];
    let mut msg: Vec<char> = Vec::new();
    push_str(&mut msg, "test has too many bare assertions about more than one subject (");
    push_decimal(&mut msg, count);
    push_str(&mut msg, " > ");
    push_decimal(&mut msg, max);
    push_str(&mut msg, ")");
    let ghost m = roulette_message(count as nat, max as nat);
    assert(msg@ =~= m);
    let fd = finding_for(ctx.tree, first, "ZR004", string_of(&msg), ctx.file);
    proof {
        lemma_emitted_push(old(out)@, out@, "ZR004"@, ctx.file@, ns, Seq::empty(), fd, (first, m));
        assert(Seq::<(usize, Seq<char>)>::empty().push((first, m)) =~= roulette_for(ns, max as nat, t as int));
    }
    out.push(fd);
}

/// `ZR004 assertion-roulette`.
pub struct AssertionRouletteRule;

impl AssertionRouletteRule {
    pub fn code(&self) -> (r: &'static str)
        ensures
            r@ == "ZR004"@,
    {
        "ZR004"
    }

    pub fn name(&self) -> (r: &'static str)
        ensures
            r@ == "assertion-roulette"@,
    {
        "assertion-roulette"
    }

    /// Pushes one finding per test with too many bare asserts about more than
    /// one subject, at its first bare assert.
    pub fn check(&self, ctx: &Context, out: &mut Vec<Finding>)
        requires
            ctx.wf(),
        ensures
            emitted(
                old(out)@,
                final(out)@,
                "ZR004"@,
                ctx.file@,
                ctx.tree.nodes@,
                roulette_findings(ctx.tree.nodes@, ctx.config.zr004.max_asserts as nat),
            ),
    {
        let ghost ns = ctx.tree.nodes@;
        let max = ctx.config.zr004.max_asserts;
        let ghost f = |t: int| roulette_for(ns, max as nat, t);
        let tests = iter_test_functions(ctx.tree);
        let ghost ts = tests@;
        let mut k: usize = 0;
        proof {
            assert(ts.take(0) =~= Seq::<usize>::empty());
            lemma_test_fns_in(ns);
        }
        while k < tests.len()
            invariant
                ns == ctx.tree.nodes@,
                ctx.wf(),
                ts == tests@,
                forall|i: int| 0 <= i < ts.len() ==> (#[trigger] ts[i]) < ns.len(),
                max == ctx.config.zr004.max_asserts,
                f == (|t: int| roulette_for(ns, max as nat, t)),
                k <= ts.len(),
                emitted(old(out)@, out@, "ZR004"@, ctx.file@, ns, over_tests(ts.take(k as int), f)),
            decreases tests.len() - k,
        {
            let t = tests[k];
            let ghost mid = out@;
            check_test(ctx, t, max, out);
            proof {
                lemma_over_tests_step(ts, f, k as int);
                lemma_emitted_trans(
                    old(out)@,
                    mid,
                    out@,
                    "ZR004"@,
                    ctx.file@,
                    ns,
                    over_tests(ts.take(k as int), f),
                    roulette_for(ns, max as nat, t as int),
                );
            }
            k = k + 1;
        }
        proof {
            lemma_over_tests_all(ts, f);
        }
    }
}

} // verus!
