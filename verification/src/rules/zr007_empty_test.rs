//! `ZR007 empty-test`: a test whose body is only placeholders (`pass`, `...`,
//! a docstring). Tests marked skip/xfail, or whose first real statement is a
//! runtime skip, are exempt.
use vstd::prelude::*;
use crate::ast::{
    first_named, first_named_child, iter_test_functions, kind, named_child_count, named_child_of, named_kids,
    runtime_skip, skip_or_xfail, test_fns, test_has_runtime_skip_call, test_has_skip_or_xfail_decorator,
};
use crate::report::Finding;
use crate::rules::{
    emitted, finding_for, lemma_emitted_push, lemma_over_tests_all, lemma_over_tests_step, lemma_test_fns_in,
    over_tests, Context,
};
use crate::tree::{depths, end_at, field_child, tree_wf, SyntaxNode, SyntaxTree};

verus! {

/// Message of every `ZR007` finding.
pub const MESSAGE: &'static str = "test body is empty (pass/ellipsis/docstring only)";

/// Statement `c` is a placeholder: `pass`, or an expression statement whose
/// one named child is `...` or a string.
pub open spec fn placeholder(ns: Seq<SyntaxNode>, c: int) -> bool {
    if kind(ns, c) == "pass_statement"@ {
        true
    } else if kind(ns, c) == "expression_statement"@ {
        named_kids(ns, c).len() == 1 && (first_named(ns, c) matches Some(x) && (kind(ns, x) == "ellipsis"@
            || kind(ns, x) == "string"@))
    } else {
        false
    }
}

/// A named child of `b` that is not a comment.
pub open spec fn stmt_of(ns: Seq<SyntaxNode>, b: int, c: int) -> bool {
    b < c < ns[b].end && named_child_of(ns, b, c) && kind(ns, c) != "comment"@
}

/// Block `b` has at least one statement, and every statement is a placeholder.
#[verifier::opaque]
pub open spec fn body_empty(ns: Seq<SyntaxNode>, b: int) -> bool {
    &&& exists|c: int| #[trigger] stmt_of(ns, b, c)
    &&& forall|c: int| #[trigger] stmt_of(ns, b, c) ==> placeholder(ns, c)
}

/// `ZR007` entries of test `t`: the test itself when its body is empty and it
/// is neither marked skip/xfail nor skipped at run time.
pub open spec fn empty_for(ns: Seq<SyntaxNode>, t: int) -> Seq<(usize, Seq<char>)> {
    match field_child(ns, t, "body"@) {
        Some(b) => if !skip_or_xfail(ns, t) && !runtime_skip(ns, t) && body_empty(ns, b) {
            seq![(t as usize, MESSAGE@)]
        } else {
            Seq::empty()
        },
        None => Seq::empty(),
    }
}

/// Every `ZR007` entry of a tree.
pub open spec fn empty_findings(ns: Seq<SyntaxNode>) -> Seq<(usize, Seq<char>)> {
    over_tests(test_fns(ns), |t: int| empty_for(ns, t))
}

/// Whether statement `c` is a placeholder.
fn is_placeholder_statement(tree: &SyntaxTree, c: usize) -> (r: bool)
    requires
        tree_wf(tree.nodes@),
        c < tree.nodes@.len(),
    ensures
        r == placeholder(tree.nodes@, c as int),
{
    if tree.kind_is(c, "pass_statement") {
        true
    } else if tree.kind_is(c, "expression_statement") {
        if named_child_count(tree, c) != 1 {
            return false;
        }
        match first_named_child(tree, c) {
            Some(x) => tree.kind_is(x, "ellipsis") || tree.kind_is(x, "string"),
            None => false,
        }
    } else {
        false
    }
}

/// Whether block `b` holds statements, all of them placeholders.
fn body_is_empty(tree: &SyntaxTree, b: usize) -> (r: bool)
    requires
        tree_wf(tree.nodes@),
        b < tree.nodes@.len(),
    ensures
        r == body_empty(tree.nodes@, b as int),
{
    reveal(body_empty);
    let ghost ns = tree.nodes@;
    let end = tree.nodes[b].end;
    assert(end_at(depths(ns), b as int, end as int));
    let mut any_stmt = false;
    let mut c = b + 1;
    while c < end
        invariant
            ns == tree.nodes@,
            tree_wf(ns),
            b < c <= end <= ns.len(),
            end == ns[b as int].end,
            any_stmt == exists|d: int| b < d < c && #[trigger] stmt_of(ns, b as int, d),
            forall|d: int| b < d < c && #[trigger] stmt_of(ns, b as int, d) ==> placeholder(ns, d),
        decreases end - c,
    {
        if tree.nodes[c].parent == b && tree.nodes[c].named && !tree.kind_is(c, "comment") {
            assert(stmt_of(ns, b as int, c as int));
            any_stmt = true;
            if !is_placeholder_statement(tree, c) {
                proof {
                    reveal(body_empty);
                }
                return false;
            }
        }
        c = c + 1;
    }
    any_stmt
}

/// `ZR007 empty-test`.
pub struct EmptyTestRule;

impl EmptyTestRule {
    pub fn code(&self) -> (r: &'static str)
        ensures
            r@ == "ZR007"@,
    {
        "ZR007"
    }

    pub fn name(&self) -> (r: &'static str)
        ensures
            r@ == "empty-test"@,
    {
        "empty-test"
    }

    /// Pushes one finding per test with an empty body, at the test.
    #[verifier::rlimit(40)]
    #[verifier::spinoff_prover]
    pub fn check(&self, ctx: &Context, out: &mut Vec<Finding>)
        requires
            ctx.wf(),
        ensures
            emitted(old(out)@, final(out)@, "ZR007"@, ctx.file@, ctx.tree.nodes@, empty_findings(ctx.tree.nodes@)),
    {
        let ghost ns = ctx.tree.nodes@;
        let ghost f = |t: int| empty_for(ns, t);
        let tests = iter_test_functions(ctx.tree);
        let ghost ts = tests@;
        let mut k: usize = 0;
        proof {
            assert(ts.take(0) =~= Seq::<usize>::empty());
            lemma_test_fns_in(ns);
        }
        while k < tests.len()
            invariant
                ns == ctx.tree.nodes@,
                ctx.wf(),
                ts == tests@,
                forall|i: int| 0 <= i < ts.len() ==> (#[trigger] ts[i]) < ns.len(),
                f == (|t: int| empty_for(ns, t)),
                k <= ts.len(),
                emitted(old(out)@, out@, "ZR007"@, ctx.file@, ns, over_tests(ts.take(k as int), f)),
            decreases tests.len() - k,
        {
            let t = tests[k];
            proof {
                lemma_over_tests_step(ts, f, k as int);
            }
            let ghost acc = over_tests(ts.take(k as int), f);
            match ctx.tree.child_by_field(t, "body") {
                None => {
                    proof {
                        assert(acc + f(t as int) =~= acc);
                    }
                },
                Some(b) => {
                    if !test_has_skip_or_xfail_decorator(ctx.tree, t) && !test_has_runtime_skip_call(ctx.tree, t)
                        && body_is_empty(ctx.tree, b) {
                        let fd = finding_for(ctx.tree, t, "ZR007", MESSAGE.to_owned(), ctx.file);
                        proof {
                            lemma_emitted_push(old(out)@, out@, "ZR007"@, ctx.file@, ns, acc, fd, (t, MESSAGE@));
                            assert(acc.push((t, MESSAGE@)) =~= acc + f(t as int));
                        }
                        out.push(fd);
                    } else {
                        proof {
                            assert(acc + f(t as int) =~= acc);
                        }
                    }
                },
            }
            k = k + 1;
        }
        proof {
            lemma_over_tests_all(ts, f);
        }
    }
}

} // verus!
