//! `ZR002 sleep-in-test`: a `sleep` call inside a test.
//!
//! Real time in tests is a race-condition generator. The rule fires once per
//! call, anywhere in a test body (inline helpers included), whose function is
//! the bare name `sleep` or an attribute ending in `.sleep` (`time.sleep`,
//! `asyncio.sleep`, ...).
use vstd::prelude::*;
use crate::ast::{field_text, field_text_of, iter_test_functions, kind, pick, test_fns};
use crate::report::Finding;
use crate::rules::{
    emitted, finding_for, lemma_emitted_push, lemma_emitted_trans, lemma_over_tests_all, lemma_over_tests_step,
    lemma_test_fns_in, over_tests, Context,
};
use crate::text::str_eq;
use crate::tree::{depths, end_at, field_child, text_of, tree_wf, SyntaxNode, SyntaxTree};

verus! {

/// Message of every `ZR002` finding.
pub const MESSAGE: &'static str = "test calls sleep — wait on a condition instead";

/// Node `c` calls `sleep` or `<anything>.sleep`.
pub open spec fn sleep_call(ns: Seq<SyntaxNode>, c: int) -> bool {
    kind(ns, c) == "call"@ && match field_child(ns, c, "function"@) {
        Some(f) => if kind(ns, f) == "identifier"@ {
            text_of(ns, Some(f)) == Some("sleep"@)
        } else {
            kind(ns, f) == "attribute"@ && field_text_of(ns, f, "attribute"@) == Some("sleep"@)
        },
        None => false,
    }
}

/// The `sleep` calls of test `t`'s body, in source order.
pub open spec fn sleeps_in(ns: Seq<SyntaxNode>, t: int) -> Seq<usize> {
    match field_child(ns, t, "body"@) {
        Some(b) => pick(b, ns[b].end as int, |j: int| sleep_call(ns, j)),
        None => Seq::empty(),
    }
}

/// `ZR002` entries of test `t`: each of its `sleep` calls.
pub open spec fn sleep_for(ns: Seq<SyntaxNode>, t: int) -> Seq<(usize, Seq<char>)> {
    sleeps_in(ns, t).map_values(|j: usize| (j, MESSAGE@))
}

/// Every `ZR002` entry of a tree.
pub open spec fn sleep_findings(ns: Seq<SyntaxNode>) -> Seq<(usize, Seq<char>)> {
    over_tests(test_fns(ns), |t: int| sleep_for(ns, t))
}

/// Whether call `c` calls `sleep` or `<anything>.sleep`.
fn call_is_sleep(tree: &SyntaxTree, c: usize) -> (r: bool)
    requires
        tree_wf(tree.nodes@),
        c < tree.nodes@.len(),
    ensures
        r == sleep_call(tree.nodes@, c as int),
{
    if !tree.kind_is(c, "call") {
        return false;
    }
    let f = match tree.child_by_field(c, "function") {
        Some(f) => f,
        None => return false,
    };
    if tree.kind_is(f, "identifier") {
        match tree.text_at(f) {
            Some(t) => str_eq(t.as_str(), "sleep"),
            None => false,
        }
    } else if tree.kind_is(f, "attribute") {
        match field_text(tree, f, "attribute") {
            Some(t) => str_eq(t.as_str(), "sleep"),
            None => false,
        }
    } else {
        false
    }
}

/// Pushes the `ZR002` findings of test `t`.
fn check_test(ctx: &Context, t: usize, out: &mut Vec<Finding>)
    requires
        ctx.wf(),
        t < ctx.tree.nodes@.len(),
    ensures
        emitted(old(out)@, final(out)@, "ZR002"@, ctx.file@, ctx.tree.nodes@, sleep_for(ctx.tree.nodes@, t as int)),
{
    let ghost ns = ctx.tree.nodes@;
    match ctx.tree.child_by_field(t, "body") {
        None => {
            proof {
                assert(sleep_for(ns, t as int) =~= Seq::empty());
            }
        },
        Some(b) => {
            let ghost pr = |j: int| sleep_call(ns, j);
            let end = ctx.tree.nodes[b].end;
            assert(end_at(depths(ns), b as int, end as int));
            let mut j = b;
            proof {
                assert(pick(b as int, b as int, pr).map_values(|j: usize| (j, MESSAGE@)) =~= Seq::empty());
            }
            while j < end
                invariant
                    ns == ctx.tree.nodes@,
                    ctx.wf(),
                    b <= j <= end <= ns.len(),
                    end == ns[b as int].end,
                    pr == (|j: int| sleep_call(ns, j)),
                    emitted(
                        old(out)@,
                        out@,
                        "ZR002"@,
                        ctx.file@,
                        ns,
                        pick(b as int, j as int, pr).map_values(|j: usize| (j, MESSAGE@)),
                    ),
                decreases end - j,
            {
                if call_is_sleep(ctx.tree, j) {
                    let fd = finding_for(ctx.tree, j, "ZR002", MESSAGE.to_owned(), ctx.file);
                    proof {
                        let prev = pick(b as int, j as int, pr).map_values(|j: usize| (j, MESSAGE@));
                        lemma_emitted_push(old(out)@, out@, "ZR002"@, ctx.file@, ns, prev, fd, (j, MESSAGE@));
                        assert(prev.push((j, MESSAGE@)) =~= pick(b as int, j + 1, pr).map_values(
                            |j: usize| (j, MESSAGE@),
                        ));
                    }
                    out.push(fd);
                } else {
                    proof {
                        assert(pick(b as int, j + 1, pr) == pick(b as int, j as int, pr));
                    }
                }
                j = j + 1;
            }
        },
    }
}

/// `ZR002 sleep-in-test`.
pub struct SleepRule;

impl SleepRule {
    pub fn code(&self) -> (r: &'static str)
        ensures
            r@ == "ZR002"@,
    {
        "ZR002"
    }

    pub fn name(&self) -> (r: &'static str)
        ensures
            r@ == "sleep-in-test"@,
    {
        "sleep-in-test"
    }

    /// Pushes one finding per `sleep` call in a test body, at the call.
    pub fn check(&self, ctx: &Context, out: &mut Vec<Finding>)
        requires
            ctx.wf(),
        ensures
            emitted(old(out)@, final(out)@, "ZR002"@, ctx.file@, ctx.tree.nodes@, sleep_findings(ctx.tree.nodes@)),
    {
        let ghost ns = ctx.tree.nodes@;
        let ghost f = |t: int| sleep_for(ns, t);
        let tests = iter_test_functions(ctx.tree);
        let ghost ts = tests@;
        let mut k: usize = 0;
        proof {
            assert(ts.take(0) =~= Seq::<usize>::empty());
            lemma_test_fns_in(ns);
        }
        while k < tests.len()
            invariant
                ns == ctx.tree.nodes@,
                ctx.wf(),
                ts == tests@,
                forall|i: int| 0 <= i < ts.len() ==> (#[trigger] ts[i]) < ns.len(),
                f == (|t: int| sleep_for(ns, t)),
                k <= ts.len(),
                emitted(old(out)@, out@, "ZR002"@, ctx.file@, ns, over_tests(ts.take(k as int), f)),
            decreases tests.len() - k,
        {
            let t = tests[k];
            let ghost mid = out@;
            check_test(ctx, t, out);
            proof {
                lemma_over_tests_step(ts, f, k as int);
                lemma_emitted_trans(
                    old(out)@,
                    mid,
                    out@,
                    "ZR002"@,
                    ctx.file@,
                    ns,
                    over_tests(ts.take(k as int), f),
                    sleep_for(ns, t as int),
                );
            }
            k = k + 1;
        }
        proof {
            lemma_over_tests_all(ts, f);
        }
    }
}

} // verus!
