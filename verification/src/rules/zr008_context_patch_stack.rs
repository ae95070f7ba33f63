//! `ZR008 context-patch-stack`: a test whose body opens more
//! `with patch(...)` context managers than the configured maximum
//! (`max_patches`). Every `with_item` whose value (past one `as` target) calls
//! something ending in `patch` counts, whether the items share one `with` or
//! are nested. Helpers defined inline (`def`, `lambda`) are not looked into.
use vstd::prelude::*;
use crate::ast::{
    first_named, first_named_child, identifier_or_attribute_tail, iter_test_functions, kind, named_child_of, pick,
    tail_name, test_fns,
};
use crate::report::Finding;
use crate::rules::{
    emitted, finding_for, lemma_emitted_push, lemma_emitted_trans, lemma_over_tests_all, lemma_over_tests_step,
    lemma_test_fns_in, over_tests, Context,
};
use crate::text::{decimal, push_decimal, push_str, str_eq, string_of};
use crate::tree::{depths, desc, end_at, field_child, lemma_nest, tree_wf, SyntaxNode, SyntaxTree};

verus! {

/// The value of a `with_item` (or of an `as_pattern`): its `value` field, else
/// its first named child.
pub open spec fn value_of(ns: Seq<SyntaxNode>, x: int) -> Option<int> {
    match field_child(ns, x, "value"@) {
        Some(v) => Some(v),
        None => first_named(ns, x),
    }
}

/// The `with_item` `x` calls something whose final identifier is `patch`.
pub open spec fn patch_item(ns: Seq<SyntaxNode>, x: int) -> bool {
    match value_of(ns, x) {
        Some(v) => {
            let inner = if kind(ns, v) == "as_pattern"@ {
                value_of(ns, v)
            } else {
                Some(v)
            };
            match inner {
                Some(c) => kind(ns, c) == "call"@ && (field_child(ns, c, "function"@) matches Some(f) && tail_name(
                    ns,
                    f,
                ) == Some("patch"@)),
                None => false,
            }
        },
        None => false,
    }
}

/// The patch items among the named children of the `with_clause` `c`.
pub open spec fn clause_items(ns: Seq<SyntaxNode>, c: int) -> Seq<usize> {
    pick(
        c + 1,
        ns[c].end as int,
        |x: int| named_child_of(ns, c, x) && kind(ns, x) == "with_item"@ && patch_item(ns, x),
    )
}

/// The patch items a named child `c` of a `with` statement contributes.
pub open spec fn child_items(ns: Seq<SyntaxNode>, c: int) -> Seq<usize> {
    if kind(ns, c) == "with_clause"@ {
        clause_items(ns, c)
    } else if kind(ns, c) == "with_item"@ && patch_item(ns, c) {
        seq![c as usize]
    } else {
        Seq::empty()
    }
}

/// The patch items of the `with` statement `w`, from child index `c` on.
pub open spec fn with_items_from(ns: Seq<SyntaxNode>, w: int, c: int) -> Seq<usize>
    decreases ns[w].end - c,
{
    if c < 0 || c >= ns[w].end {
        Seq::empty()
    } else if named_child_of(ns, w, c) {
        child_items(ns, c) + with_items_from(ns, w, c + 1)
    } else {
        with_items_from(ns, w, c + 1)
    }
}

/// The patch items node `i` contributes to the walk: those of a `with`
/// statement, none otherwise.
pub open spec fn node_items(ns: Seq<SyntaxNode>, i: int) -> Seq<usize> {
    if kind(ns, i) == "with_statement"@ {
        with_items_from(ns, i, i + 1)
    } else {
        Seq::empty()
    }
}

/// A helper definition the walk does not enter.
pub open spec fn pruned(ns: Seq<SyntaxNode>, i: int) -> bool {
    kind(ns, i) == "function_definition"@ || kind(ns, i) == "lambda"@
}

/// The patch items the walk meets from index `i` up to `end`, skipping the
/// subtrees of helper definitions.
pub open spec fn items_from(ns: Seq<SyntaxNode>, end: int, i: int) -> Seq<usize>
    decreases end - i,
{
    if i < 0 || i >= end || end > ns.len() {
        Seq::empty()
    } else if pruned(ns, i) {
        items_from(ns, end, if i < ns[i].end <= end { ns[i].end as int } else { i + 1 })
    } else {
        node_items(ns, i) + items_from(ns, end, i + 1)
    }
}

/// The patch items of the body `b`, in walk order.
#[verifier::opaque]
pub open spec fn patch_items(ns: Seq<SyntaxNode>, b: int) -> Seq<usize> {
    node_items(ns, b) + items_from(ns, ns[b].end as int, b + 1)
}

/// The message for `n` patch items over a maximum of `m`.
pub open spec fn context_patch_message(n: nat, m: nat) -> Seq<char> {
    "test has too many `with patch(...)` context managers ("@ + decimal(n) + " > "@ + decimal(m)
        + "); consider a single fixture"@
}

/// `ZR008` entries of test `t`: its first patch item, when its body has more
/// than `max` of them.
#[verifier::opaque]
pub open spec fn context_patch_for(ns: Seq<SyntaxNode>, max: nat, t: int) -> Seq<(usize, Seq<char>)> {
    match field_child(ns, t, "body"@) {
        Some(b) => {
            let xs = patch_items(ns, b);
            if xs.len() > max {
                seq![(xs[0], context_patch_message(xs.len(), max))]
            } else {
                Seq::empty()
            }
        },
        None => Seq::empty(),
    }
}

/// Every `ZR008` entry of a tree.
pub open spec fn context_patch_findings(ns: Seq<SyntaxNode>, max: nat) -> Seq<(usize, Seq<char>)> {
    over_tests(test_fns(ns), |t: int| context_patch_for(ns, max, t))
}

/// The value of the `with_item` or `as_pattern` `x`.
fn value_node(tree: &SyntaxTree, x: usize) -> (r: Option<usize>)
    requires
        tree_wf(tree.nodes@),
        x < tree.nodes@.len(),
    ensures
        match value_of(tree.nodes@, x as int) {
            Some(v) => (r matches Some(y) && y == v) && 0 <= v < tree.nodes@.len(),
            None => r is None,
        },
{
    match tree.child_by_field(x, "value") {
        Some(v) => Some(v),
        None => first_named_child(tree, x),
    }
}

/// Whether the `with_item` `x` calls a `patch`.
fn with_item_is_patch_call(tree: &SyntaxTree, x: usize) -> (r: bool)
    requires
        tree_wf(tree.nodes@),
        x < tree.nodes@.len(),
    ensures
        r == patch_item(tree.nodes@, x as int),
{
    let v = match value_node(tree, x) {
        Some(v) => v,
        None => return false,
    };
    let inner = if tree.kind_is(v, "as_pattern") {
        match value_node(tree, v) {
            Some(i) => i,
            None => return false,
        }
    } else {
        v
    };
    if !tree.kind_is(inner, "call") {
        return false;
    }
    let f = match tree.child_by_field(inner, "function") {
        Some(f) => f,
        None => return false,
    };
    match identifier_or_attribute_tail(tree, f) {
        Some(n) => str_eq(n.as_str(), "patch"),
        None => false,
    }
}

/// Appends the patch items of the `with_clause` `c`.
fn collect_clause_items(tree: &SyntaxTree, c: usize, out: &mut Vec<usize>)
    requires
        tree_wf(tree.nodes@),
        c < tree.nodes@.len(),
    ensures
        final(out)@ == old(out)@ + clause_items(tree.nodes@, c as int),
        forall|k: int| old(out)@.len() <= k < final(out)@.len() ==> #[trigger] final(out)@[k] < tree.nodes@.len(),
{
    let ghost ns = tree.nodes@;
    let ghost pr = |x: int| named_child_of(ns, c as int, x) && kind(ns, x) == "with_item"@ && patch_item(ns, x);
    let end = tree.nodes[c].end;
    assert(end_at(depths(ns), c as int, end as int));
    let ghost start = out@;
    let mut x = c + 1;
    while x < end
        invariant
            ns == tree.nodes@,
            tree_wf(ns),
            c < x <= end <= ns.len(),
            end == ns[c as int].end,
            pr == (|x: int| named_child_of(ns, c as int, x) && kind(ns, x) == "with_item"@ && patch_item(ns, x)),
            out@ == start + pick(c + 1, x as int, pr),
            forall|k: int| start.len() <= k < out@.len() ==> #[trigger] out@[k] < ns.len(),
        decreases end - x,
    {
        if tree.nodes[x].parent == c && tree.nodes[x].named && tree.kind_is(x, "with_item")
            && with_item_is_patch_call(tree, x) {
            out.push(x);
            proof {
                assert(out@ =~= start + pick(c + 1, x + 1, pr));
            }
        } else {
            proof {
                assert(pick(c + 1, x + 1, pr) == pick(c + 1, x as int, pr));
            }
        }
        x = x + 1;
    }
}

/// Appends the patch items of the `with` statement `w`.
fn collect_patch_items_in_with(tree: &SyntaxTree, w: usize, out: &mut Vec<usize>)
    requires
        tree_wf(tree.nodes@),
        w < tree.nodes@.len(),
    ensures
        final(out)@ == old(out)@ + with_items_from(tree.nodes@, w as int, w + 1),
        forall|k: int| old(out)@.len() <= k < final(out)@.len() ==> #[trigger] final(out)@[k] < tree.nodes@.len(),
{
    let ghost ns = tree.nodes@;
    let end = tree.nodes[w].end;
    assert(end_at(depths(ns), w as int, end as int));
    let ghost start = out@;
    let mut c = w + 1;
    while c < end
        invariant
            ns == tree.nodes@,
            tree_wf(ns),
            w < c <= end <= ns.len(),
            end == ns[w as int].end,
            start + with_items_from(ns, w as int, w + 1) == out@ + with_items_from(ns, w as int, c as int),
            start.len() <= out@.len(),
            forall|k: int| start.len() <= k < out@.len() ==> #[trigger] out@[k] < ns.len(),
        decreases end - c,
    {
        let ghost before = out@;
        if tree.nodes[c].parent == w && tree.nodes[c].named {
            if tree.kind_is(c, "with_clause") {
                collect_clause_items(tree, c, out);
            } else if tree.kind_is(c, "with_item") && with_item_is_patch_call(tree, c) {
                out.push(c);
            }
            proof {
                assert(out@ == before + child_items(ns, c as int));
                assert(before + with_items_from(ns, w as int, c as int) =~= out@ + with_items_from(
                    ns,
                    w as int,
                    c + 1,
                ));
            }
        }
        c = c + 1;
    }
    proof {
        assert(with_items_from(ns, w as int, c as int) =~= Seq::<usize>::empty());
        assert(out@ + Seq::<usize>::empty() =~= out@);
    }
}

/// Every patch item of the body `b`, in walk order.
fn collect_patch_with_items(tree: &SyntaxTree, b: usize) -> (r: Vec<usize>)
    requires
        tree_wf(tree.nodes@),
        b < tree.nodes@.len(),
    ensures
        r@ == patch_items(tree.nodes@, b as int),
        forall|k: int| 0 <= k < r@.len() ==> #[trigger] r@[k] < tree.nodes@.len(),
{
    reveal(patch_items);
    let ghost ns = tree.nodes@;
    let mut out: Vec<usize> = Vec::new();
    if tree.kind_is(b, "with_statement") {
        collect_patch_items_in_with(tree, b, &mut out);
    }
    proof {
        assert(out@ =~= node_items(ns, b as int));
    }
    let end = tree.nodes[b].end;
    assert(end_at(depths(ns), b as int, end as int));
    let mut i = b + 1;
    while i < end
        invariant
            ns == tree.nodes@,
            tree_wf(ns),
            b < i <= end <= ns.len(),
            end == ns[b as int].end,
            patch_items(ns, b as int) == out@ + items_from(ns, end as int, i as int),
            forall|k: int| 0 <= k < out@.len() ==> #[trigger] out@[k] < ns.len(),
        decreases end - i,
    {
        let ghost before = out@;
        if tree.kind_is(i, "function_definition") || tree.kind_is(i, "lambda") {
            let next = tree.nodes[i].end;
            assert(end_at(depths(ns), i as int, next as int));
            proof {
                lemma_nest(ns, b as int, i as int);
            }
            i = next;
        } else {
            if tree.kind_is(i, "with_statement") {
                collect_patch_items_in_with(tree, i, &mut out);
            }
            proof {
                assert(out@ == before + node_items(ns, i as int));
                assert(before + items_from(ns, end as int, i as int) =~= out@ + items_from(ns, end as int, i + 1));
            }
            i = i + 1;
        }
    }
    proof {
        assert(out@ + items_from(ns, end as int, i as int) =~= out@);
    }
    out
}

/// Pushes the `ZR008` finding of test `t`, if it has one.
fn check_test(ctx: &Context, t: usize, max: usize, out: &mut Vec<Finding>)
    requires
        ctx.wf(),
        t < ctx.tree.nodes@.len(),
    ensures
        emitted(
            old(out)@,
            final(out)@,
            "ZR008"@,
            ctx.file@,
            ctx.tree.nodes@,
            context_patch_for(ctx.tree.nodes@, max as nat, t as int),
        ),
{
    reveal(context_patch_for);
    let ghost ns = ctx.tree.nodes@;
    let b = match ctx.tree.child_by_field(t, "body") {
        Some(b) => b,
        None => return,
    };
    let xs = collect_patch_with_items(ctx.tree, b);
    assert(xs@.len() > 0 ==> xs@[0] < ns.len());
    let count = xs.len();
    if count <= max {
        return;
    }
    let first = xs[0];
    let mut msg: Vec<char> = Vec::new();
    push_str(&mut msg, "test has too many `with patch(...)` context managers (");
    push_decimal(&mut msg, count);
    push_str(&mut msg, " > ");
    push_decimal(&mut msg, max);
    push_str(&mut msg, "); consider a single fixture");
    let ghost m = context_patch_message(count as nat, max as nat);
    assert(msg@ =~= m);
    let fd = finding_for(ctx.tree, first, "ZR008", string_of(&msg), ctx.file);
    proof {
        lemma_emitted_push(old(out)@, out@, "ZR008"@, ctx.file@, ns, Seq::empty(), fd, (first, m));
        assert(Seq::<(usize, Seq<char>)>::empty().push((first, m)) =~= context_patch_for(ns, max as nat, t as int));
    }
    out.push(fd);
}

/// `ZR008 context-patch-stack`.
pub struct ContextPatchStackRule;

impl ContextPatchStackRule {
    pub fn code(&self) -> (r: &'static str)
        ensures
            r@ == "ZR008"@,
    {
        "ZR008"
    }

    pub fn name(&self) -> (r: &'static str)
        ensures
            r@ == "context-patch-stack"@,
    {
        "context-patch-stack"
    }

    /// Pushes one finding per test with more `with patch(...)` items than
    /// `max_patches`, at the first of them.
    pub fn check(&self, ctx: &Context, out: &mut Vec<Finding>)
        requires
            ctx.wf(),
        ensures
            emitted(
                old(out)@,
                final(out)@,
                "ZR008"@,
                ctx.file@,
                ctx.tree.nodes@,
                context_patch_findings(ctx.tree.nodes@, ctx.config.zr008.max_patches as nat),
            ),
    {
        let ghost ns = ctx.tree.nodes@;
        let max = ctx.config.zr008.max_patches;
        let ghost f = |t: int| context_patch_for(ns, max as nat, t);
        let tests = iter_test_functions(ctx.tree);
        let ghost ts = tests@;
        let mut k: usize = 0;
        proof {
            assert(ts.take(0) =~= Seq::<usize>::empty());
            lemma_test_fns_in(ns);
        }
        while k < tests.len()
            invariant
                ns == ctx.tree.nodes@,
                ctx.wf(),
                ts == tests@,
                forall|i: int| 0 <= i < ts.len() ==> (#[trigger] ts[i]) < ns.len(),
                max == ctx.config.zr008.max_patches,
                f == (|t: int| context_patch_for(ns, max as nat, t)),
                k <= ts.len(),
                emitted(old(out)@, out@, "ZR008"@, ctx.file@, ns, over_tests(ts.take(k as int), f)),
            decreases tests.len() - k,
        {
            let t = tests[k];
            let ghost mid = out@;
            check_test(ctx, t, max, out);
            proof {
                lemma_over_tests_step(ts, f, k as int);
                lemma_emitted_trans(
                    old(out)@,
                    mid,
                    out@,
                    "ZR008"@,
                    ctx.file@,
                    ns,
                    over_tests(ts.take(k as int), f),
                    context_patch_for(ns, max as nat, t as int),
                );
            }
            k = k + 1;
        }
        proof {
            lemma_over_tests_all(ts, f);
        }
    }
}

} // verus!
