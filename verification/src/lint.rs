//! The engine: every enabled rule on one parsed file, with suppressions applied;
//! then the findings of a run sorted, and filtered to changed lines.
use vstd::prelude::*;
use crate::ast::names_view;
use crate::changed_lines::{keeps_spec, normalize, ChangedLines};
use crate::config::RuleConfig;
use crate::report::Finding;
use crate::rules::zr001_conditional::{conditional_findings, ConditionalRule};
use crate::rules::zr002_sleep::{sleep_findings, SleepRule};
use crate::rules::zr003_no_assertion::{no_assert_findings, NoAssertionRule};
use crate::rules::zr004_assertion_roulette::{roulette_findings, AssertionRouletteRule};
use crate::rules::zr005_mystery_guest::{guest_findings, MysteryGuestRule};
use crate::rules::zr006_patch_stack::{patch_stack_findings, PatchStackRule};
use crate::rules::zr007_empty_test::{empty_findings, EmptyTestRule};
use crate::rules::zr008_context_patch_stack::{context_patch_findings, ContextPatchStackRule};
use crate::rules::{all, all_rules, emitted, finding_at, rule_code, Context, RuleId};
use crate::suppress::{covers, file_scope_of, statement_spans, upper, widened_silences, Suppressions};
use crate::text::lines;
use crate::tree::{node_matches, parse, parse_succeeds, positions_fit, tree_wf, ts_node_count, ParseError, SyntaxNode, SyntaxTree};

verus! {

/// The entries (node, message) `rule` reports on a tree under `cfg`.
pub open spec fn rule_entries(rule: RuleId, ns: Seq<SyntaxNode>, cfg: RuleConfig) -> Seq<(usize, Seq<char>)> {
    match rule {
        RuleId::Zr001 => conditional_findings(ns, names_view(cfg.zr003.helpers@)),
        RuleId::Zr002 => sleep_findings(ns),
        RuleId::Zr003 => no_assert_findings(ns, names_view(cfg.zr003.helpers@)),
        RuleId::Zr004 => roulette_findings(ns, cfg.zr004.max_asserts as nat),
        RuleId::Zr005 => guest_findings(ns, names_view(cfg.zr005.allowed_prefixes@)),
        RuleId::Zr006 => patch_stack_findings(ns, cfg.zr006.max_patches as nat),
        RuleId::Zr007 => empty_findings(ns),
        RuleId::Zr008 => context_patch_findings(ns, cfg.zr008.max_patches as nat),
    }
}

/// Runs `rule` on the file of `ctx`, pushing its findings.
pub fn run_rule(rule: RuleId, ctx: &Context, out: &mut Vec<Finding>)
    requires
        ctx.wf(),
    ensures
        emitted(old(out)@, final(out)@, rule_code(rule), ctx.file@, ctx.tree.nodes@, rule_entries(rule, ctx.tree.nodes@, *ctx.config)),
{
    match rule {
        RuleId::Zr001 => ConditionalRule.check(ctx, out),
        RuleId::Zr002 => SleepRule.check(ctx, out),
        RuleId::Zr003 => NoAssertionRule.check(ctx, out),
        RuleId::Zr004 => AssertionRouletteRule.check(ctx, out),
        RuleId::Zr005 => MysteryGuestRule.check(ctx, out),
        RuleId::Zr006 => PatchStackRule.check(ctx, out),
        RuleId::Zr007 => EmptyTestRule.check(ctx, out),
        RuleId::Zr008 => ContextPatchStackRule.check(ctx, out),
    }
}

/// A finding to report: rule code, node, message.
pub open spec fn tagged(code: Seq<char>, hs: Seq<(usize, Seq<char>)>) -> Seq<(Seq<char>, usize, Seq<char>)> {
    hs.map_values(|h: (usize, Seq<char>)| (code, h.0, h.1))
}

/// `out` reports `es`, one finding per entry, in order, for `file`.
pub open spec fn reported(out: Seq<Finding>, file: Seq<char>, ns: Seq<SyntaxNode>, es: Seq<(Seq<char>, usize, Seq<char>)>) -> bool {
    &&& out.len() == es.len()
    &&& forall|j: int| 0 <= j < es.len() ==> finding_at(#[trigger] out[j], es[j].0, es[j].2, file, ns[es[j].1 as int])
}

/// The rule is switched off in the configuration.
pub open spec fn disabled(cfg: RuleConfig, rule: RuleId) -> bool {
    exists|i: int| 0 <= i < cfg.disabled@.len() && #[trigger] cfg.disabled@[i]@ == rule_code(rule)
}

/// The rule runs on a file with source lines `ls`: it is not switched off and
/// no `ignore-file` directive silences it.
pub open spec fn runs(cfg: RuleConfig, ls: Seq<Seq<char>>, rule: RuleId) -> bool {
    !disabled(cfg, rule) && !covers(file_scope_of(ls), upper(rule_code(rule)))
}

/// The findings of the first `k` rules, in rule order, before line suppressions.
pub open spec fn raw_entries(ns: Seq<SyntaxNode>, cfg: RuleConfig, ls: Seq<Seq<char>>, k: int) -> Seq<(Seq<char>, usize, Seq<char>)>
    decreases k,
{
    if k <= 0 {
        Seq::empty()
    } else {
        raw_entries(ns, cfg, ls, k - 1) + if runs(cfg, ls, all_rules()[k - 1]) {
            tagged(rule_code(all_rules()[k - 1]), rule_entries(all_rules()[k - 1], ns, cfg))
        } else {
            Seq::empty()
        }
    }
}

/// Entry `e` survives the suppressions of a file with lines `ls` whose statement
/// spans are `sps`.
pub open spec fn kept(ns: Seq<SyntaxNode>, ls: Seq<Seq<char>>, sps: Seq<(usize, usize)>, e: (Seq<char>, usize, Seq<char>)) -> bool {
    !(covers(file_scope_of(ls), upper(e.0)) || widened_silences(ls, sps, ns[e.1 as int].row + 1, upper(e.0)))
}

/// The entries of `es` that survive, in order.
pub open spec fn kept_entries(
    ns: Seq<SyntaxNode>,
    ls: Seq<Seq<char>>,
    sps: Seq<(usize, usize)>,
    es: Seq<(Seq<char>, usize, Seq<char>)>,
) -> Seq<(Seq<char>, usize, Seq<char>)>
    decreases es.len(),
{
    if es.len() == 0 {
        Seq::empty()
    } else {
        kept_entries(ns, ls, sps, es.drop_last()) + if kept(ns, ls, sps, es.last()) {
            seq![es.last()]
        } else {
            Seq::empty()
        }
    }
}

/// What a file reports: every running rule's findings, in rule order, without
/// those its suppression comments silence.
pub open spec fn file_entries(ns: Seq<SyntaxNode>, src: Seq<char>, cfg: RuleConfig) -> Seq<(Seq<char>, usize, Seq<char>)> {
    kept_entries(ns, lines(src), statement_spans(ns), raw_entries(ns, cfg, lines(src), 8))
}

/// Whether `rule` is switched off in `cfg`.
fn is_disabled(cfg: &RuleConfig, rule: RuleId) -> (r: bool)
    ensures
        r == disabled(*cfg, rule),
{
    let code = rule.code();
    let mut i: usize = 0;
    while i < cfg.disabled.len()
        invariant
            i <= cfg.disabled@.len(),
            code@ == rule_code(rule),
            forall|j: int| 0 <= j < i ==> cfg.disabled@[j]@ != rule_code(rule),
        decreases cfg.disabled.len() - i,
    {
        if crate::text::str_eq(cfg.disabled[i], code) {
            return true;
        }
        i = i + 1;
    }
    false
}

pub proof fn lemma_emitted_tagged(
    a: Seq<Finding>,
    b: Seq<Finding>,
    code: Seq<char>,
    file: Seq<char>,
    ns: Seq<SyntaxNode>,
    hs: Seq<(usize, Seq<char>)>,
    es: Seq<(Seq<char>, usize, Seq<char>)>,
)
    requires
        emitted(a, b, code, file, ns, hs),
        reported(a, file, ns, es),
    ensures
        reported(b, file, ns, es + tagged(code, hs)),
{
    let t = es + tagged(code, hs);
    assert forall|j: int| 0 <= j < t.len() implies finding_at(#[trigger] b[j], t[j].0, t[j].2, file, ns[t[j].1 as int]) by {
        if j < es.len() {
            assert(b[j] == a[j]);
        } else {
            let k = j - es.len();
            assert(b[j] == b[a.len() + k]);
        }
    }
}

/// The findings of every running rule on a parsed file, before line suppressions.
fn run_rules(ctx: &Context, ls: Ghost<Seq<Seq<char>>>, sup: &Suppressions) -> (r: Vec<Finding>)
    requires
        ctx.wf(),
        sup.file_scope() == file_scope_of(ls@),
    ensures
        reported(r@, ctx.file@, ctx.tree.nodes@, raw_entries(ctx.tree.nodes@, *ctx.config, ls@, 8)),
{
    let ghost ns = ctx.tree.nodes@;
    let rules = all();
    let mut out: Vec<Finding> = Vec::new();
    let mut k: usize = 0;
    while k < rules.len()
        invariant
            ctx.wf(),
            ns == ctx.tree.nodes@,
            rules@ == all_rules(),
            k <= 8,
            sup.file_scope() == file_scope_of(ls@),
            reported(out@, ctx.file@, ns, raw_entries(ns, *ctx.config, ls@, k as int)),
        decreases rules.len() - k,
    {
        let rule = rules[k];
        let ghost before = out@;
        let ghost prev = raw_entries(ns, *ctx.config, ls@, k as int);
        if !is_disabled(ctx.config, rule) && rule.default_enabled() && !sup.suppresses_code(rule.code()) {
            run_rule(rule, ctx, &mut out);
            proof {
                lemma_emitted_tagged(before, out@, rule_code(rule), ctx.file@, ns, rule_entries(rule, ns, *ctx.config), prev);
            }
        } else {
            proof {
                assert(prev + Seq::<(Seq<char>, usize, Seq<char>)>::empty() =~= prev);
            }
        }
        k = k + 1;
    }
    out
}

/// The findings of every enabled rule on the file `file` with text `source`,
/// parsed as `tree`: rules run in code order unless switched off or silenced by
/// an `ignore-file` directive, and findings a line directive silences (widened
/// to its statement) are dropped.
pub fn lint_tree(file: &str, source: &str, tree: &SyntaxTree, config: &RuleConfig) -> (r: Vec<Finding>)
    requires
        tree_wf(tree.nodes@),
        positions_fit(tree.nodes@),
    ensures
        reported(r@, file@, tree.nodes@, file_entries(tree.nodes@, source@, *config)),
{
    let ghost ns = tree.nodes@;
    let ghost ls = lines(source@);
    let ghost sps = statement_spans(ns);
    let sup = Suppressions::from_tree(tree, source);
    let ctx = Context { file, source, tree, config, suppressions: &sup };
    let raw = run_rules(&ctx, Ghost(ls), &sup);
    let ghost es = raw_entries(ns, *config, ls, 8);
    let mut out: Vec<Finding> = Vec::new();
    let mut i: usize = 0;
    while i < raw.len()
        invariant
            ns == tree.nodes@,
            ls == lines(source@),
            sps == statement_spans(ns),
            sup.file_scope() == file_scope_of(ls),
            forall|l: int, c: Seq<char>| #[trigger] sup.line_covers(l, c) <==> widened_silences(ls, sps, l, c),
            reported(raw@, file@, ns, es),
            i <= raw@.len(),
            reported(out@, file@, ns, kept_entries(ns, ls, sps, es.take(i as int))),
        decreases raw.len() - i,
    {
        let f = &raw[i];
        proof {
            assert(es.take(i + 1).drop_last() =~= es.take(i as int));
            assert(es.take(i + 1).last() == es[i as int]);
            assert(finding_at(raw@[i as int], es[i as int].0, es[i as int].2, file@, ns[es[i as int].1 as int]));
        }
        let ghost prev = kept_entries(ns, ls, sps, es.take(i as int));
        if !sup.is_suppressed(f.line, f.code) {
            let ghost before = out@;
            out.push(f.copied());
            proof {
                let t = prev + seq![es[i as int]];
                assert forall|j: int| 0 <= j < t.len() implies finding_at(#[trigger] out@[j], t[j].0, t[j].2, file@, ns[t[j].1 as int]) by {
                    if j < prev.len() {
                        assert(out@[j] == before[j]);
                    }
                }
            }
        } else {
            proof {
                assert(prev + Seq::<(Seq<char>, usize, Seq<char>)>::empty() =~= prev);
            }
        }
        i = i + 1;
    }
    proof {
        assert(es.take(raw@.len() as int) =~= es);
    }
    out
}

/// The tree `ns` is the parse of `src`.
pub open spec fn parse_of(src: Seq<char>, ns: Seq<SyntaxNode>) -> bool {
    &&& tree_wf(ns)
    &&& positions_fit(ns)
    &&& ns.len() == ts_node_count(src)
    &&& forall|i: int| 0 <= i < ns.len() ==> #[trigger] node_matches(ns, src, i)
}

/// Parses `source` and lints it as `file` (see [`lint_tree`]). Fails only when
/// the parse does.
pub fn lint_source(file: &str, source: &str, config: &RuleConfig) -> (r: Result<Vec<Finding>, ParseError>)
    ensures
        r is Ok <==> parse_succeeds(source@),
        r matches Ok(v) ==> exists|ns: Seq<SyntaxNode>|
            #[trigger] parse_of(source@, ns) && reported(v@, file@, ns, file_entries(ns, source@, *config)),
{
    match parse(source) {
        Ok(tree) => {
            let v = lint_tree(file, source, &tree, config);
            proof {
                assert(parse_of(source@, tree.nodes@));
                assert(reported(v@, file@, tree.nodes@, file_entries(tree.nodes@, source@, *config)));
            }
            Ok(v)
        },
        Err(e) => Err(e),
    }
}

/// The findings that survive a changed-lines filter, in order.
pub open spec fn changed_filter(m: Map<Seq<char>, Option<Set<int>>>, fs: Seq<Finding>) -> Seq<Finding>
    decreases fs.len(),
{
    if fs.len() == 0 {
        Seq::empty()
    } else {
        changed_filter(m, fs.drop_last()) + if keeps_spec(m, normalize(fs.last().file@), fs.last().line as int) {
            seq![fs.last()]
        } else {
            Seq::empty()
        }
    }
}

/// Keeps the findings on lines the manifest `changed` names as changed (files
/// it does not mention, or names whole, keep all theirs).
pub fn filter_changed(findings: Vec<Finding>, changed: &ChangedLines) -> (r: Vec<Finding>)
    ensures
        r@ == changed_filter(changed.model(), findings@),
{
    let ghost fs = findings@;
    let mut out: Vec<Finding> = Vec::new();
    let mut i: usize = 0;
    while i < findings.len()
        invariant
            fs == findings@,
            i <= fs.len(),
            out@ == changed_filter(changed.model(), fs.take(i as int)),
        decreases findings.len() - i,
    {
        proof {
            assert(fs.take(i + 1).drop_last() =~= fs.take(i as int));
            assert(fs.take(i + 1).last() == fs[i as int]);
        }
        if changed.keeps(findings[i].file.as_str(), findings[i].line) {
            out.push(findings[i].copied());
            proof {
                assert(out@ =~= changed_filter(changed.model(), fs.take(i + 1)));
            }
        } else {
            proof {
                assert(changed_filter(changed.model(), fs.take(i + 1)) =~= changed_filter(changed.model(), fs.take(i as int)));
            }
        }
        i = i + 1;
    }
    proof {
        assert(fs.take(fs.len() as int) =~= fs);
    }
    out
}


/// Every finding a file reports comes from a rule that runs on it (not switched
/// off, not silenced by `ignore-file`), and is not silenced on its line.
pub proof fn law_reported_respects_configuration(ns: Seq<SyntaxNode>, src: Seq<char>, cfg: RuleConfig)
    ensures
        forall|j: int|
            0 <= j < file_entries(ns, src, cfg).len() ==> {
                let e = #[trigger] file_entries(ns, src, cfg)[j];
                &&& kept(ns, lines(src), statement_spans(ns), e)
                &&& from_running_rule(cfg, lines(src), e)
            },
{
    let ls = lines(src);
    let sps = statement_spans(ns);
    let raw = raw_entries(ns, cfg, ls, 8);
    lemma_raw_entries_run(ns, cfg, ls, 8);
    lemma_kept_entries(ns, ls, sps, raw);
    let fe = file_entries(ns, src, cfg);
    assert forall|j: int| 0 <= j < fe.len() implies kept(ns, ls, sps, #[trigger] fe[j]) && from_running_rule(cfg, ls, fe[j]) by {
        let i = choose|i: int| 0 <= i < raw.len() && raw[i] == fe[j];
        assert(from_running_rule(cfg, ls, raw[i]));
    }
}

/// Entry `e` carries the code of a rule that runs.
pub open spec fn from_running_rule(cfg: RuleConfig, ls: Seq<Seq<char>>, e: (Seq<char>, usize, Seq<char>)) -> bool {
    exists|r: RuleId| #[trigger] runs(cfg, ls, r) && rule_code(r) == e.0
}

proof fn lemma_raw_entries_run(ns: Seq<SyntaxNode>, cfg: RuleConfig, ls: Seq<Seq<char>>, k: int)
    requires
        k <= 8,
    ensures
        forall|j: int|
            0 <= j < raw_entries(ns, cfg, ls, k).len() ==> from_running_rule(cfg, ls, #[trigger] raw_entries(ns, cfg, ls, k)[j]),
    decreases k,
{
    if k > 0 {
        lemma_raw_entries_run(ns, cfg, ls, k - 1);
        let prev = raw_entries(ns, cfg, ls, k - 1);
        let rule = all_rules()[k - 1];
        let add = if runs(cfg, ls, rule) {
            tagged(rule_code(rule), rule_entries(rule, ns, cfg))
        } else {
            Seq::empty()
        };
        let all = raw_entries(ns, cfg, ls, k);
        assert(all == prev + add);
        assert forall|j: int| 0 <= j < all.len() implies from_running_rule(cfg, ls, #[trigger] all[j]) by {
            if j < prev.len() {
                assert(all[j] == prev[j]);
                assert(from_running_rule(cfg, ls, prev[j]));
            } else {
                assert(all[j] == add[j - prev.len()]);
                assert(runs(cfg, ls, rule));
                assert(add[j - prev.len()].0 == rule_code(rule));
                assert(runs(cfg, ls, rule) && rule_code(rule) == all[j].0);
            }
        }
    }
}

proof fn lemma_kept_entries(
    ns: Seq<SyntaxNode>,
    ls: Seq<Seq<char>>,
    sps: Seq<(usize, usize)>,
    es: Seq<(Seq<char>, usize, Seq<char>)>,
)
    ensures
        forall|j: int|
            0 <= j < kept_entries(ns, ls, sps, es).len() ==> kept(ns, ls, sps, #[trigger] kept_entries(ns, ls, sps, es)[j])
                && exists|i: int| 0 <= i < es.len() && es[i] == kept_entries(ns, ls, sps, es)[j],
    decreases es.len(),
{
    if es.len() > 0 {
        lemma_kept_entries(ns, ls, sps, es.drop_last());
        let prev = kept_entries(ns, ls, sps, es.drop_last());
        let all = kept_entries(ns, ls, sps, es);
        assert forall|j: int| 0 <= j < all.len() implies kept(ns, ls, sps, #[trigger] all[j]) && exists|i: int|
            0 <= i < es.len() && es[i] == all[j] by {
            if j < prev.len() {
                assert(all[j] == prev[j]);
                let i = choose|i: int| 0 <= i < es.drop_last().len() && es.drop_last()[i] == prev[j];
                assert(es[i] == es.drop_last()[i]);
            } else {
                assert(all[j] == es.last());
                assert(es[es.len() - 1] == es.last());
            }
        }
    }
}

/// The findings of a run come out sorted: no finding sorts before an earlier one.
pub proof fn law_sorted_findings_are_ordered(fs: Seq<Finding>, r: Seq<Finding>)
    requires
        crate::report::sorted_as(fs, r),
    ensures
        forall|i: int, j: int|
            0 <= i < j < r.len() ==> !crate::report::key_less(
                crate::report::finding_key(#[trigger] r[j]),
                crate::report::finding_key(#[trigger] r[i]),
            ),
{
    let ord = choose|ord: Seq<int>|
        #[trigger] crate::report::stably_sorted(crate::report::keys_of(fs), ord) && r.len() == ord.len() && forall|i: int|
            0 <= i < ord.len() ==> r[i] == fs[ord[i]];
    let keys = crate::report::keys_of(fs);
    assert forall|i: int, j: int| 0 <= i < j < r.len() implies !crate::report::key_less(
        crate::report::finding_key(#[trigger] r[j]),
        crate::report::finding_key(#[trigger] r[i]),
    ) by {
        assert(r[i] == fs[ord[i]] && r[j] == fs[ord[j]]);
        assert(0 <= ord[i] < fs.len() && 0 <= ord[j] < fs.len());
        assert(keys[ord[i]] == crate::report::finding_key(fs[ord[i]]));
        assert(keys[ord[j]] == crate::report::finding_key(fs[ord[j]]));
        assert(!crate::report::key_less(keys[ord[j]], keys[ord[i]]));
    }
}

/// Files the changed-lines manifest does not name keep every finding.
pub proof fn law_unlisted_files_keep_everything(m: Map<Seq<char>, Option<Set<int>>>, file: Seq<char>, line: int)
    requires
        !m.dom().contains(normalize(file)),
    ensures
        keeps_spec(m, normalize(file), line),
{
}

} // verus!
