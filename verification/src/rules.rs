//! The rule catalogue (every rule's code and kebab-case name, in code order), the
//! [`Context`] a rule inspects a file through, and the way rules report findings.
use vstd::prelude::*;
use crate::ast::{test_fns, iter_test_functions, kind};
use crate::config::RuleConfig;
use crate::report::{Finding, Severity};
use crate::suppress::Suppressions;
use crate::tree::{positions_fit, tree_wf, SyntaxNode, SyntaxTree};

pub mod zr001_conditional;
pub mod zr002_sleep;
pub mod zr003_no_assertion;
pub mod zr004_assertion_roulette;
pub mod zr005_mystery_guest;
pub mod zr006_patch_stack;
pub mod zr007_empty_test;
pub mod zr008_context_patch_stack;

verus! {

/// One compiled-in rule.
#[derive(Clone, Copy, PartialEq, Eq, Structural, Debug)]
pub enum RuleId {
    Zr001,
    Zr002,
    Zr003,
    Zr004,
    Zr005,
    Zr006,
    Zr007,
    Zr008,
}

pub open spec fn rule_code(r: RuleId) -> Seq<char> {
    match r {
        RuleId::Zr001 => "ZR001"@,
        RuleId::Zr002 => "ZR002"@,
        RuleId::Zr003 => "ZR003"@,
        RuleId::Zr004 => "ZR004"@,
        RuleId::Zr005 => "ZR005"@,
        RuleId::Zr006 => "ZR006"@,
        RuleId::Zr007 => "ZR007"@,
        RuleId::Zr008 => "ZR008"@,
    }
}

pub open spec fn rule_name(r: RuleId) -> Seq<char> {
    match r {
        RuleId::Zr001 => "conditional-test-logic"@,
        RuleId::Zr002 => "sleep-in-test"@,
        RuleId::Zr003 => "no-assertion"@,
        RuleId::Zr004 => "assertion-roulette"@,
        RuleId::Zr005 => "mystery-guest"@,
        RuleId::Zr006 => "patch-stack"@,
        RuleId::Zr007 => "empty-test"@,
        RuleId::Zr008 => "context-patch-stack"@,
    }
}

/// Every rule, in code order.
pub open spec fn all_rules() -> Seq<RuleId> {
    seq![
        RuleId::Zr001,
        RuleId::Zr002,
        RuleId::Zr003,
        RuleId::Zr004,
        RuleId::Zr005,
        RuleId::Zr006,
        RuleId::Zr007,
        RuleId::Zr008,
    ]
}

/// The rule registered under `code`, if any.
pub open spec fn rule_for(code: Seq<char>) -> Option<RuleId> {
    if exists|i: int| 0 <= i < 8 && rule_code(#[trigger] all_rules()[i]) == code {
        Some(all_rules()[choose|i: int| 0 <= i < 8 && rule_code(#[trigger] all_rules()[i]) == code])
    } else {
        None
    }
}

/// Name of the rule registered under `code`, `"unknown"` when there is none.
pub open spec fn rule_name_spec(code: Seq<char>) -> Seq<char> {
    match rule_for(code) {
        Some(r) => rule_name(r),
        None => "unknown"@,
    }
}

impl RuleId {
    /// Short machine-readable identifier, e.g. `"ZR001"`.
    pub fn code(self) -> (r: &'static str)
        ensures
            r@ == rule_code(self),
    {
        match self {
            RuleId::Zr001 => "ZR001",
            RuleId::Zr002 => "ZR002",
            RuleId::Zr003 => "ZR003",
            RuleId::Zr004 => "ZR004",
            RuleId::Zr005 => "ZR005",
            RuleId::Zr006 => "ZR006",
            RuleId::Zr007 => "ZR007",
            RuleId::Zr008 => "ZR008",
        }
    }

    /// Human-readable kebab-case name, e.g. `"conditional-test-logic"`.
    pub fn name(self) -> (r: &'static str)
        ensures
            r@ == rule_name(self),
    {
        match self {
            RuleId::Zr001 => "conditional-test-logic",
            RuleId::Zr002 => "sleep-in-test",
            RuleId::Zr003 => "no-assertion",
            RuleId::Zr004 => "assertion-roulette",
            RuleId::Zr005 => "mystery-guest",
            RuleId::Zr006 => "patch-stack",
            RuleId::Zr007 => "empty-test",
            RuleId::Zr008 => "context-patch-stack",
        }
    }

    /// Whether the rule is on when the configuration says nothing about it.
    pub fn default_enabled(self) -> (r: bool)
        ensures
            r,
    {
        true
    }
}

/// Every rule known to the engine, in code order.
pub fn all() -> (r: Vec<RuleId>)
    ensures
        r@ == all_rules(),
{
    let v = vec![
        RuleId::Zr001,
        RuleId::Zr002,
        RuleId::Zr003,
        RuleId::Zr004,
        RuleId::Zr005,
        RuleId::Zr006,
        RuleId::Zr007,
        RuleId::Zr008,
    ];
    assert(v@ =~= all_rules());
    v
}

proof fn lemma_codes_distinct()
    ensures
        forall|i: int, j: int|
            0 <= i < 8 && 0 <= j < 8 && i != j ==> rule_code(#[trigger] all_rules()[i]) != rule_code(
                #[trigger] all_rules()[j],
            ),
{
    reveal_strlit("ZR001");
    reveal_strlit("ZR002");
    reveal_strlit("ZR003");
    reveal_strlit("ZR004");
    reveal_strlit("ZR005");
    reveal_strlit("ZR006");
    reveal_strlit("ZR007");
    reveal_strlit("ZR008");
    assert forall|i: int, j: int|
        0 <= i < 8 && 0 <= j < 8 && i != j implies rule_code(#[trigger] all_rules()[i]) != rule_code(
            #[trigger] all_rules()[j],
        ) by {
        assert(rule_code(all_rules()[i])[4] != rule_code(all_rules()[j])[4]);
    }
}

/// The rule registered under `code`.
pub fn find(code: &str) -> (r: Option<RuleId>)
    ensures
        r == rule_for(code@),
{
    let rules = all();
    let cs = crate::text::str_chars(code);
    let mut i: usize = 0;
    while i < rules.len()
        invariant
            rules@ == all_rules(),
            cs@ == code@,
            0 <= i <= 8,
            forall|j: int| 0 <= j < i ==> rule_code(#[trigger] all_rules()[j]) != code@,
        decreases rules.len() - i,
    {
        if crate::text::eq_str(&cs, rules[i].code()) {
            proof {
                lemma_codes_distinct();
                assert(rule_code(all_rules()[i as int]) == code@);
                let c = choose|c: int| 0 <= c < 8 && rule_code(#[trigger] all_rules()[c]) == code@;
                assert(c == i);
            }
            return Some(rules[i]);
        }
        i = i + 1;
    }
    None
}

/// Position in [`all`] of the rule registered under `code`.
pub fn rule_index(code: &str) -> (r: Option<usize>)
    ensures
        match r {
            Some(i) => i < 8 && rule_code(all_rules()[i as int]) == code@,
            None => forall|j: int| 0 <= j < 8 ==> rule_code(#[trigger] all_rules()[j]) != code@,
        },
{
    let rules = all();
    let cs = crate::text::str_chars(code);
    let mut i: usize = 0;
    while i < rules.len()
        invariant
            rules@ == all_rules(),
            cs@ == code@,
            0 <= i <= 8,
            forall|j: int| 0 <= j < i ==> rule_code(#[trigger] all_rules()[j]) != code@,
        decreases rules.len() - i,
    {
        if crate::text::eq_str(&cs, rules[i].code()) {
            return Some(i);
        }
        i = i + 1;
    }
    None
}

/// Name of the rule registered under `code`, `"unknown"` when there is none.
pub fn rule_name_for(code: &str) -> (r: &'static str)
    ensures
        r@ == rule_name_spec(code@),
{
    match find(code) {
        Some(rule) => rule.name(),
        None => "unknown",
    }
}


/// Everything a rule needs to inspect one file.
pub struct Context<'a> {
    pub file: &'a str,
    pub source: &'a str,
    pub tree: &'a SyntaxTree,
    pub config: &'a RuleConfig,
    pub suppressions: &'a Suppressions,
}

impl<'a> Context<'a> {
    /// The tree is a well-formed arena whose positions fit 1-based lines.
    pub open spec fn wf(&self) -> bool {
        tree_wf(self.tree.nodes@) && positions_fit(self.tree.nodes@)
    }
}

/// Finding `f` reports `msg` under `code` for `file`, at the 1-based position
/// of node `n`, as a warning.
pub open spec fn finding_at(f: Finding, code: Seq<char>, msg: Seq<char>, file: Seq<char>, n: SyntaxNode) -> bool {
    &&& f.code@ == code
    &&& f.message@ == msg
    &&& f.file@ == file
    &&& f.line == n.row + 1
    &&& f.column == n.col + 1
    &&& f.severity == Severity::Warning
}

/// `new` is `old` followed by one finding per entry of `hits` (a node and its
/// message), in order.
pub open spec fn emitted(
    old: Seq<Finding>,
    new: Seq<Finding>,
    code: Seq<char>,
    file: Seq<char>,
    ns: Seq<SyntaxNode>,
    hits: Seq<(usize, Seq<char>)>,
) -> bool {
    &&& new.len() == old.len() + hits.len()
    &&& forall|j: int| 0 <= j < old.len() ==> new[j] == old[j]
    &&& forall|j: int|
        0 <= j < hits.len() ==> finding_at(
            #[trigger] new[old.len() + j],
            code,
            hits[j].1,
            file,
            ns[hits[j].0 as int],
        )
}

/// The entries of `f` for each test in `ts`, test after test.
pub open spec fn over_tests(ts: Seq<usize>, f: spec_fn(int) -> Seq<(usize, Seq<char>)>) -> Seq<(usize, Seq<char>)>
    decreases ts.len(),
{
    if ts.len() == 0 {
        Seq::empty()
    } else {
        over_tests(ts.drop_last(), f) + f(ts.last() as int)
    }
}

pub proof fn lemma_over_tests_step(ts: Seq<usize>, f: spec_fn(int) -> Seq<(usize, Seq<char>)>, k: int)
    requires
        0 <= k < ts.len(),
    ensures
        over_tests(ts.take(k + 1), f) == over_tests(ts.take(k), f) + f(ts[k] as int),
{
    assert(ts.take(k + 1).drop_last() =~= ts.take(k));
}

pub proof fn lemma_over_tests_all(ts: Seq<usize>, f: spec_fn(int) -> Seq<(usize, Seq<char>)>)
    ensures
        over_tests(ts.take(ts.len() as int), f) == over_tests(ts, f),
{
    assert(ts.take(ts.len() as int) =~= ts);
}

/// Appending one finding for the next entry keeps `emitted`.
pub proof fn lemma_emitted_push(
    old: Seq<Finding>,
    new: Seq<Finding>,
    code: Seq<char>,
    file: Seq<char>,
    ns: Seq<SyntaxNode>,
    hits: Seq<(usize, Seq<char>)>,
    f: Finding,
    h: (usize, Seq<char>),
)
    requires
        emitted(old, new, code, file, ns, hits),
        finding_at(f, code, h.1, file, ns[h.0 as int]),
    ensures
        emitted(old, new.push(f), code, file, ns, hits.push(h)),
{
    let n2 = new.push(f);
    let h2 = hits.push(h);
    assert forall|j: int| 0 <= j < h2.len() implies finding_at(
        #[trigger] n2[old.len() + j],
        code,
        h2[j].1,
        file,
        ns[h2[j].0 as int],
    ) by {
        if j < hits.len() {
            assert(n2[old.len() + j] == new[old.len() + j]);
        }
    }
}

/// Findings emitted in two rounds are emitted for both lists of entries.
pub proof fn lemma_emitted_trans(
    a: Seq<Finding>,
    b: Seq<Finding>,
    c: Seq<Finding>,
    code: Seq<char>,
    file: Seq<char>,
    ns: Seq<SyntaxNode>,
    h1: Seq<(usize, Seq<char>)>,
    h2: Seq<(usize, Seq<char>)>,
)
    requires
        emitted(a, b, code, file, ns, h1),
        emitted(b, c, code, file, ns, h2),
    ensures
        emitted(a, c, code, file, ns, h1 + h2),
{
    let h = h1 + h2;
    assert forall|j: int| 0 <= j < h.len() implies finding_at(
        #[trigger] c[a.len() + j],
        code,
        h[j].1,
        file,
        ns[h[j].0 as int],
    ) by {
        if j < h1.len() {
            assert(c[a.len() + j] == b[a.len() + j]);
        } else {
            assert(c[a.len() + j] == c[b.len() + (j - h1.len())]);
        }
    }
}

/// The test functions are nodes of the tree.
pub proof fn lemma_test_fns_in(ns: Seq<SyntaxNode>)
    requires
        ns.len() <= usize::MAX,
    ensures
        forall|k: int| 0 <= k < test_fns(ns).len() ==> (#[trigger] test_fns(ns)[k]) < ns.len(),
{
    crate::ast::lemma_pick_has(0, ns.len() as int, |i: int| crate::ast::is_test_fn(ns, i), 0);
}

/// The finding `msg` under `code` for `file` at node `i`.
pub fn finding_for(tree: &SyntaxTree, i: usize, code: &'static str, msg: String, file: &str) -> (r: Finding)
    requires
        i < tree.nodes@.len(),
        positions_fit(tree.nodes@),
    ensures
        finding_at(r, code@, msg@, file@, tree.nodes@[i as int]),
{
    let n = &tree.nodes[i];
    Finding {
        code,
        message: msg,
        file: file.to_owned(),
        line: n.row + 1,
        column: n.col + 1,
        severity: Severity::Warning,
    }
}

/// `ZR000 hello-world`: one finding on every test function.
pub struct HelloRule;

/// Message of every `ZR000` finding.
pub const HELLO_MESSAGE: &'static str = "hello world (test function detected)";

/// `ZR000` entries for test `t`: the test itself.
pub open spec fn hello_for(t: int) -> Seq<(usize, Seq<char>)> {
    seq![(t as usize, HELLO_MESSAGE@)]
}

impl HelloRule {
    pub fn code(&self) -> (r: &'static str)
        ensures
            r@ == "ZR000"@,
    {
        "ZR000"
    }

    pub fn name(&self) -> (r: &'static str)
        ensures
            r@ == "hello-world"@,
    {
        "hello-world"
    }

    /// Pushes one finding per test function, at the function.
    pub fn check(&self, ctx: &Context, out: &mut Vec<Finding>)
        requires
            ctx.wf(),
        ensures
            emitted(
                old(out)@,
                final(out)@,
                "ZR000"@,
                ctx.file@,
                ctx.tree.nodes@,
                over_tests(test_fns(ctx.tree.nodes@), |t: int| hello_for(t)),
            ),
    {
        let ghost ns = ctx.tree.nodes@;
        let ghost f = |t: int| hello_for(t);
        let tests = iter_test_functions(ctx.tree);
        let ghost ts = tests@;
        let mut k: usize = 0;
        proof {
            assert(ts.take(0) =~= Seq::<usize>::empty());
        }
        while k < tests.len()
            invariant
                ns == ctx.tree.nodes@,
                ctx.wf(),
                ts == tests@,
                ts == test_fns(ns),
                f == (|t: int| hello_for(t)),
                k <= ts.len(),
                emitted(old(out)@, out@, "ZR000"@, ctx.file@, ns, over_tests(ts.take(k as int), f)),
            decreases tests.len() - k,
        {
            let t = tests[k];
            proof {
                crate::ast::lemma_pick_has(0, ns.len() as int, |i: int| crate::ast::is_test_fn(ns, i), 0);
                assert(ns.len() == ctx.tree.nodes.len());
                assert(0 <= ts[k as int] < ns.len());
            }
            let fd = finding_for(ctx.tree, t, "ZR000", HELLO_MESSAGE.to_owned(), ctx.file);
            proof {
                lemma_over_tests_step(ts, f, k as int);
                lemma_emitted_push(
                    old(out)@,
                    out@,
                    "ZR000"@,
                    ctx.file@,
                    ns,
                    over_tests(ts.take(k as int), f),
                    fd,
                    (t, HELLO_MESSAGE@),
                );
                assert(over_tests(ts.take(k as int), f).push((t, HELLO_MESSAGE@)) =~= over_tests(
                    ts.take(k as int),
                    f,
                ) + hello_for(t as int));
            }
            out.push(fd);
            k = k + 1;
        }
        proof {
            lemma_over_tests_all(ts, f);
        }
    }
}

} // verus!
