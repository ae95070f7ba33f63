//! `ZR003 no-assertion`: a test with nothing assert-shaped in its body: no
//! `assert` statement, no call to an assertion helper, no
//! `with pytest.raises(...)` / `warns(...)` block. Tests marked
//! `@pytest.mark.skip` / `@pytest.mark.xfail` are exempt.
use vstd::prelude::*;
use crate::ast::{any_assert, has_any_assert, iter_test_functions, names_view, skip_or_xfail, test_fns, test_has_skip_or_xfail_decorator};
use crate::report::Finding;
use crate::rules::{
    emitted, finding_for, lemma_emitted_push, lemma_emitted_trans, lemma_over_tests_all, lemma_over_tests_step,
    lemma_test_fns_in, over_tests, Context,
};
use crate::tree::{field_child, SyntaxNode};

verus! {

/// Message of every `ZR003` finding.
pub const MESSAGE: &'static str = "test has no assertion";

/// `ZR003` entries of test `t`: the test itself when its body holds nothing
/// assert-shaped (helpers named by `helpers`) and it is not marked skip/xfail.
pub open spec fn no_assert_for(ns: Seq<SyntaxNode>, helpers: Seq<Seq<char>>, t: int) -> Seq<(usize, Seq<char>)> {
    match field_child(ns, t, "body"@) {
        Some(b) => if !skip_or_xfail(ns, t) && !any_assert(ns, b, Some(helpers)) {
            seq![(t as usize, MESSAGE@)]
        } else {
            Seq::empty()
        },
        None => Seq::empty(),
    }
}

/// Every `ZR003` entry of a tree.
pub open spec fn no_assert_findings(ns: Seq<SyntaxNode>, helpers: Seq<Seq<char>>) -> Seq<(usize, Seq<char>)> {
    over_tests(test_fns(ns), |t: int| no_assert_for(ns, helpers, t))
}

/// `ZR003 no-assertion`.
pub struct NoAssertionRule;

impl NoAssertionRule {
    pub fn code(&self) -> (r: &'static str)
        ensures
            r@ == "ZR003"@,
    {
        "ZR003"
    }

    pub fn name(&self) -> (r: &'static str)
        ensures
            r@ == "no-assertion"@,
    {
        "no-assertion"
    }

    /// Pushes one finding per test without any assertion, at the test.
    pub fn check(&self, ctx: &Context, out: &mut Vec<Finding>)
        requires
            ctx.wf(),
        ensures
            emitted(
                old(out)@,
                final(out)@,
                "ZR003"@,
                ctx.file@,
                ctx.tree.nodes@,
                no_assert_findings(ctx.tree.nodes@, names_view(ctx.config.zr003.helpers@)),
            ),
    {
        let ghost ns = ctx.tree.nodes@;
        let helpers = &ctx.config.zr003.helpers;
        let ghost hs = names_view(helpers@);
        let ghost f = |t: int| no_assert_for(ns, hs, t);
        let tests = iter_test_functions(ctx.tree);
        let ghost ts = tests@;
        let mut k: usize = 0;
        proof {
            assert(ts.take(0) =~= Seq::<usize>::empty());
            lemma_test_fns_in(ns);
        }
        while k < tests.len()
            invariant
                ns == ctx.tree.nodes@,
                ctx.wf(),
                ts == tests@,
                forall|i: int| 0 <= i < ts.len() ==> (#[trigger] ts[i]) < ns.len(),
                hs == names_view(helpers@),
                helpers == &ctx.config.zr003.helpers,
                f == (|t: int| no_assert_for(ns, hs, t)),
                k <= ts.len(),
                emitted(old(out)@, out@, "ZR003"@, ctx.file@, ns, over_tests(ts.take(k as int), f)),
            decreases tests.len() - k,
        {
            let t = tests[k];
            proof {
                lemma_over_tests_step(ts, f, k as int);
            }
            let ghost acc = over_tests(ts.take(k as int), f);
            match ctx.tree.child_by_field(t, "body") {
                None => {
                    proof {
                        assert(acc + f(t as int) =~= acc);
                    }
                },
                Some(b) => {
                    if !test_has_skip_or_xfail_decorator(ctx.tree, t) && !has_any_assert(ctx.tree, b, helpers) {
                        let fd = finding_for(ctx.tree, t, "ZR003", MESSAGE.to_owned(), ctx.file);
                        proof {
                            lemma_emitted_push(old(out)@, out@, "ZR003"@, ctx.file@, ns, acc, fd, (t, MESSAGE@));
                            assert(acc.push((t, MESSAGE@)) =~= acc + f(t as int));
                        }
                        out.push(fd);
                    } else {
                        proof {
                            assert(acc + f(t as int) =~= acc);
                        }
                    }
                },
            }
            k = k + 1;
        }
        proof {
            lemma_over_tests_all(ts, f);
        }
    }
}

} // verus!
