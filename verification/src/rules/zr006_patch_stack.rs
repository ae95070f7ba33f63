//! `ZR006 patch-stack`: a test stacked with more `@patch` decorators than the
//! configured maximum (`max_patches`). A decorator counts when the expression
//! it names ends in `patch` (`@patch`, `@mock.patch(...)`,
//! `@unittest.mock.patch(...)`); `@patch.object` does not.
use vstd::prelude::*;
use crate::ast::{
    decorator_expr, first_named_child, identifier_or_attribute_tail, iter_test_functions, kind, named_child_of,
    parent_of, pick, tail_name, test_fns,
};
use crate::report::Finding;
use crate::rules::{
    emitted, finding_for, lemma_emitted_push, lemma_over_tests_all, lemma_over_tests_step, lemma_test_fns_in,
    over_tests, Context,
};
use crate::text::{decimal, push_decimal, push_str, str_chars, str_eq, string_of};
use crate::tree::{depths, end_at, lemma_parent, tree_wf, SyntaxNode, SyntaxTree};

verus! {

/// Node `c` is a decorator of the decorated definition `p`.
pub open spec fn decorator_of(ns: Seq<SyntaxNode>, p: int, c: int) -> bool {
    named_child_of(ns, p, c) && kind(ns, c) == "decorator"@
}

/// Decorator `d` names something whose final identifier is `patch`.
pub open spec fn patch_decorator(ns: Seq<SyntaxNode>, d: int) -> bool {
    decorator_expr(ns, d) matches Some(e) && tail_name(ns, e) == Some("patch"@)
}

/// The decorators of `p`, in source order.
pub open spec fn decorators(ns: Seq<SyntaxNode>, p: int) -> Seq<usize> {
    pick(p + 1, ns[p].end as int, |c: int| decorator_of(ns, p, c))
}

/// The `@patch` decorators of `p`, in source order.
pub open spec fn patches(ns: Seq<SyntaxNode>, p: int) -> Seq<usize> {
    pick(p + 1, ns[p].end as int, |c: int| decorator_of(ns, p, c) && patch_decorator(ns, c))
}

/// The message for `n` patches over a maximum of `m`.
pub open spec fn patch_message(n: nat, m: nat) -> Seq<char> {
    "test has too many @patch decorators ("@ + decimal(n) + " > "@ + decimal(m)
        + "); consider a single fixture"@
}

/// `ZR006` entries of test `t`: its first decorator, when it has more than
/// `max` `@patch` decorators.
pub open spec fn patch_stack_for(ns: Seq<SyntaxNode>, max: nat, t: int) -> Seq<(usize, Seq<char>)> {
    match parent_of(ns, t) {
        Some(p) => if kind(ns, p) == "decorated_definition"@ && patches(ns, p).len() > max && decorators(
            ns,
            p,
        ).len() > 0 {
            seq![(decorators(ns, p)[0], patch_message(patches(ns, p).len(), max))]
        } else {
            Seq::empty()
        },
        None => Seq::empty(),
    }
}

/// Every `ZR006` entry of a tree.
pub open spec fn patch_stack_findings(ns: Seq<SyntaxNode>, max: nat) -> Seq<(usize, Seq<char>)> {
    over_tests(test_fns(ns), |t: int| patch_stack_for(ns, max, t))
}

/// Whether decorator `d` names a `patch`.
fn decorator_is_patch(tree: &SyntaxTree, d: usize) -> (r: bool)
    requires
        tree_wf(tree.nodes@),
        d < tree.nodes@.len(),
    ensures
        r == patch_decorator(tree.nodes@, d as int),
{
    let inner = match first_named_child(tree, d) {
        Some(i) => i,
        None => return false,
    };
    let e = if tree.kind_is(inner, "call") {
        match tree.child_by_field(inner, "function") {
            Some(f) => f,
            None => return false,
        }
    } else {
        inner
    };
    match identifier_or_attribute_tail(tree, e) {
        Some(n) => str_eq(n.as_str(), "patch"),
        None => false,
    }
}

/// The decorators of `p` that are `@patch`, counted, with `p`'s first decorator.
fn count_patches(tree: &SyntaxTree, p: usize) -> (r: (usize, Option<usize>))
    requires
        tree_wf(tree.nodes@),
        p < tree.nodes@.len(),
    ensures
        r.0 == patches(tree.nodes@, p as int).len(),
        r.1 == (if decorators(tree.nodes@, p as int).len() > 0 {
            Some(decorators(tree.nodes@, p as int)[0])
        } else {
            None
        }),
        decorators(tree.nodes@, p as int).len() > 0 ==> decorators(tree.nodes@, p as int)[0] < tree.nodes@.len(),
{
    let ghost ns = tree.nodes@;
    let ghost pd = |c: int| decorator_of(ns, p as int, c);
    let ghost pp = |c: int| decorator_of(ns, p as int, c) && patch_decorator(ns, c);
    let end = tree.nodes[p].end;
    assert(end_at(depths(ns), p as int, end as int));
    let mut n: usize = 0;
    let mut first: Option<usize> = None;
    let mut c = p + 1;
    while c < end
        invariant
            ns == tree.nodes@,
            tree_wf(ns),
            p < c <= end <= ns.len(),
            end == ns[p as int].end,
            pd == (|c: int| decorator_of(ns, p as int, c)),
            pp == (|c: int| decorator_of(ns, p as int, c) && patch_decorator(ns, c)),
            n == pick(p + 1, c as int, pp).len(),
            n <= c,
            first == (if pick(p + 1, c as int, pd).len() > 0 {
                Some(pick(p + 1, c as int, pd)[0])
            } else {
                None
            }),
            pick(p + 1, c as int, pd).len() > 0 ==> pick(p + 1, c as int, pd)[0] < c,
        decreases end - c,
    {
        if tree.nodes[c].parent == p && tree.nodes[c].named && tree.kind_is(c, "decorator") {
            proof {
                assert(pick(p + 1, c + 1, pd) == pick(p + 1, c as int, pd).push(c));
            }
            if first.is_none() {
                first = Some(c);
            }
            if decorator_is_patch(tree, c) {
                n = n + 1;
            }
        }
        c = c + 1;
    }
    (n, first)
}

/// `ZR006 patch-stack`.
pub struct PatchStackRule;

impl PatchStackRule {
    pub fn code(&self) -> (r: &'static str)
        ensures
            r@ == "ZR006"@,
    {
        "ZR006"
    }

    pub fn name(&self) -> (r: &'static str)
        ensures
            r@ == "patch-stack"@,
    {
        "patch-stack"
    }

    /// Pushes one finding per test with more `@patch` decorators than
    /// `max_patches`, at its first decorator.
    pub fn check(&self, ctx: &Context, out: &mut Vec<Finding>)
        requires
            ctx.wf(),
        ensures
            emitted(
                old(out)@,
                final(out)@,
                "ZR006"@,
                ctx.file@,
                ctx.tree.nodes@,
                patch_stack_findings(ctx.tree.nodes@, ctx.config.zr006.max_patches as nat),
            ),
    {
        let ghost ns = ctx.tree.nodes@;
        let max = ctx.config.zr006.max_patches;
        let ghost f = |t: int| patch_stack_for(ns, max as nat, t);
        let tests = iter_test_functions(ctx.tree);
        let ghost ts = tests@;
        let mut k: usize = 0;
        proof {
            assert(ts.take(0) =~= Seq::<usize>::empty());
            lemma_test_fns_in(ns);
        }
        while k < tests.len()
            invariant
                ns == ctx.tree.nodes@,
                ctx.wf(),
                ts == tests@,
                forall|i: int| 0 <= i < ts.len() ==> (#[trigger] ts[i]) < ns.len(),
                max == ctx.config.zr006.max_patches,
                f == (|t: int| patch_stack_for(ns, max as nat, t)),
                k <= ts.len(),
                emitted(old(out)@, out@, "ZR006"@, ctx.file@, ns, over_tests(ts.take(k as int), f)),
            decreases tests.len() - k,
        {
            let t = tests[k];
            proof {
                lemma_over_tests_step(ts, f, k as int);
            }
            let ghost acc = over_tests(ts.take(k as int), f);
            if t == 0 {
                proof {
                    assert(acc + f(t as int) =~= acc);
                }
            } else {
                let p = ctx.tree.nodes[t].parent;
                proof {
                    lemma_parent(ns, t as int);
                }
                if !ctx.tree.kind_is(p, "decorated_definition") {
                    proof {
                        assert(acc + f(t as int) =~= acc);
                    }
                } else {
                    let (n, first) = count_patches(ctx.tree, p);
                    if n > max {
                        match first {
                            Some(d) => {
                                let mut msg: Vec<char> = Vec::new();
                                push_str(&mut msg, "test has too many @patch decorators (");
                                push_decimal(&mut msg, n);
                                push_str(&mut msg, " > ");
                                push_decimal(&mut msg, max);
                                push_str(&mut msg, "); consider a single fixture");
                                let ghost m = patch_message(n as nat, max as nat);
                                assert(msg@ =~= m);
                                let fd = finding_for(ctx.tree, d, "ZR006", string_of(&msg), ctx.file);
                                proof {
                                    lemma_emitted_push(old(out)@, out@, "ZR006"@, ctx.file@, ns, acc, fd, (d, m));
                                    assert(acc.push((d, m)) =~= acc + f(t as int));
                                }
                                out.push(fd);
                            },
                            None => {
                                proof {
                                    assert(acc + f(t as int) =~= acc);
                                }
                            },
                        }
                    } else {
                        proof {
                            assert(acc + f(t as int) =~= acc);
                        }
                    }
                }
            }
            k = k + 1;
        }
        proof {
            lemma_over_tests_all(ts, f);
        }
    }
}

} // verus!
