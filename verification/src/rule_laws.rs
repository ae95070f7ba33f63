//! What the rules, their configuration and the suppression comments promise,
//! stated over all inputs.
use vstd::prelude::*;
use crate::ast::{call_name, field_text_of, kind, named_child_of, parent_of, pick, walk_first};
use crate::rules::zr001_conditional::{
    conditional_findings, conditional_for, flags_of, has_control_flow, item_value, kids_flags, offends,
    parametrize_substitute, stmt_class, BodyStatement,
};
use crate::rules::over_tests;
use crate::rules::zr005_mystery_guest::{
    carved_out, client_receiver, first_positional, guest, guest_findings, guest_for,
};
use crate::config::{default_helpers_spec, disabled_spec, has_str, off, opt_strings, Config, RawRules, RuleConfig};
use vstd::seq_lib::lemma_seq_concat_contains_all_elements;
use crate::tree::{field_child, SyntaxNode};

verus! {

/// Every entry of `over_tests(ts, f)` is an entry of `f` for one of the tests.
pub proof fn lemma_over_tests_member(ts: Seq<usize>, f: spec_fn(int) -> Seq<(usize, Seq<char>)>, k: int)
    requires
        0 <= k < over_tests(ts, f).len(),
    ensures
        exists|i: int, j: int|
            0 <= i < ts.len() && 0 <= j < f(ts[i] as int).len() && #[trigger] f(ts[i] as int)[j] == over_tests(ts, f)[k],
    decreases ts.len(),
{
    let p = over_tests(ts.drop_last(), f);
    let last = ts.len() - 1;
    assert(ts[last] == ts.last());
    if k < p.len() {
        lemma_over_tests_member(ts.drop_last(), f, k);
        let (i, j) = choose|i: int, j: int|
            0 <= i < ts.drop_last().len() && 0 <= j < f(ts.drop_last()[i] as int).len() && #[trigger] f(
                ts.drop_last()[i] as int,
            )[j] == p[k];
        assert(ts[i] == ts.drop_last()[i]);
        assert(f(ts[i] as int)[j] == over_tests(ts, f)[k]);
    } else {
        let j = k - p.len();
        assert(f(ts[last] as int)[j] == over_tests(ts, f)[k]);
    }
}

/// Every `ZR005` entry names a mystery-guest literal.
proof fn lemma_guest_entries(ns: Seq<SyntaxNode>, allowed: Seq<Seq<char>>, k: int)
    requires
        0 <= k < guest_findings(ns, allowed).len(),
    ensures
        guest(ns, allowed, guest_findings(ns, allowed)[k].0 as int),
{
    let f = |t: int| guest_for(ns, allowed, t);
    lemma_over_tests_member(crate::ast::test_fns(ns), f, k);
    let ts = crate::ast::test_fns(ns);
    let (i, j) = choose|i: int, j: int|
        0 <= i < ts.len() && 0 <= j < f(ts[i] as int).len() && #[trigger] f(ts[i] as int)[j] == guest_findings(ns, allowed)[k];
    let t = ts[i] as int;
    reveal(guest_for);
    crate::tree::lemma_first_where(t + 1, ns[t].end as int, |c: int| crate::tree::in_field(ns, t, "body"@, c));
    match field_child(ns, t, "body"@) {
        Some(b) => {
            let p = |x: int| guest(ns, allowed, x);
            assert(ns[b].end <= usize::MAX);
            crate::ast::lemma_pick_has(b, ns[b].end as int, p, 0);
            assert(guest_for(ns, allowed, t)[j].0 == pick(b, ns[b].end as int, p)[j]);
        },
        None => {},
    }
}

/// A string literal that is the route (the first positional argument) of a call
/// of `get`, `post`, `put`, `delete`, `patch`, `options`, `head` or `request` on
/// a test client is never a `ZR005` finding.
pub proof fn law_client_routes_are_not_mystery_guests(
    ns: Seq<SyntaxNode>,
    allowed: Seq<Seq<char>>,
    s: int,
    al: int,
    call: int,
    f: int,
    o: int,
    m: Seq<char>,
)
    requires
        parent_of(ns, s) == Some(al),
        kind(ns, al) == "argument_list"@,
        first_positional(ns, al) == Some(s),
        parent_of(ns, al) == Some(call),
        kind(ns, call) == "call"@,
        field_child(ns, call, "function"@) == Some(f),
        kind(ns, f) == "attribute"@,
        field_child(ns, f, "object"@) == Some(o),
        client_receiver(ns, o),
        field_text_of(ns, f, "attribute"@) == Some(m),
        m == "get"@ || m == "post"@ || m == "put"@ || m == "delete"@ || m == "patch"@ || m == "options"@
            || m == "head"@ || m == "request"@,
    ensures
        !guest(ns, allowed, s),
        forall|k: int| 0 <= k < guest_findings(ns, allowed).len() ==> #[trigger] guest_findings(ns, allowed)[k].0 != s,
{
    reveal(carved_out);
    assert(carved_out(ns, s));
    assert forall|k: int| 0 <= k < guest_findings(ns, allowed).len() implies #[trigger] guest_findings(ns, allowed)[k].0
        != s by {
        lemma_guest_entries(ns, allowed, k);
    }
}

/// A `with` statement one of whose items calls a context manager named
/// `assertRaises`, `assertWarns`, `assertRaisesRegex`, `assertWarnsRegex`,
/// `raises` or `warns` reads as an assertion.
pub proof fn law_raising_with_is_an_assertion(ns: Seq<SyntaxNode>, hs: Seq<Seq<char>>, w: int, c: int, x: int, n: Seq<char>)
    requires
        0 <= w < ns.len(),
        kind(ns, w) == "with_statement"@,
        w < c < ns[w].end,
        named_child_of(ns, w, c),
        (c == x && kind(ns, x) == "with_item"@) || (kind(ns, c) == "with_clause"@ && c < x < ns[c].end && named_child_of(
            ns,
            c,
            x,
        ) && kind(ns, x) == "with_item"@),
        kind(ns, item_value(ns, x)) == "call"@,
        call_name(ns, item_value(ns, x)) == Some(n),
        n == "assertRaises"@ || n == "assertWarns"@ || n == "assertRaisesRegex"@ || n == "assertWarnsRegex"@ || n
            == "raises"@ || n == "warns"@,
    ensures
        stmt_class(ns, hs, w) == BodyStatement::Assertion,
{
    reveal_strlit("with_statement");
    reveal_strlit("with_clause");
    reveal_strlit("with_item");
    reveal_strlit("assert_statement");
    reveal_strlit("expression_statement");
    reveal_strlit("assignment");
    reveal_strlit("augmented_assignment");
    reveal_strlit("comment");
    assert(kind(ns, w)[0] == 'w');
    assert("assert_statement"@[0] == 'a');
    assert("expression_statement"@[0] == 'e');
    assert("assignment"@[0] == 'a');
    assert("augmented_assignment"@[0] == 'a');
    assert("comment"@[0] == 'c');
    assert(kind(ns, w) != "assert_statement"@);
    assert(kind(ns, w) != "expression_statement"@);
    assert(kind(ns, w) != "assignment"@);
    assert(kind(ns, w) != "augmented_assignment"@);
    assert(kind(ns, w) != "comment"@);
    assert(crate::rules::zr001_conditional::raising_cm_name(n));
    assert(crate::rules::zr001_conditional::item_raises(ns, x));
    if c == x && kind(ns, x) == "with_item"@ {
        assert(kind(ns, x)[5] == 'i');
        assert("with_clause"@[5] == 'c');
        assert(kind(ns, c) != "with_clause"@);
    }
    assert(crate::rules::zr001_conditional::with_child_raises(ns, c));
    assert(crate::rules::zr001_conditional::with_asserts(ns, w));
}

/// The flags of a block whose only named child is `w`.
proof fn lemma_single_kid_flags(ns: Seq<SyntaxNode>, hs: Seq<Seq<char>>, b: int, w: int, c: int)
    requires
        0 <= b < ns.len(),
        ns[b].end <= ns.len(),
        b < w < ns[b].end,
        named_child_of(ns, b, w),
        forall|d: int| b < d < ns[b].end && named_child_of(ns, b, d) ==> d == w,
        b < c <= ns[b].end,
    ensures
        kids_flags(ns, hs, b, c) == if c <= w {
            flags_of(stmt_class(ns, hs, w))
        } else {
            (false, false, false, false)
        },
    decreases ns[b].end - c,
{
    if c < ns[b].end {
        lemma_single_kid_flags(ns, hs, b, w, c + 1);
    }
}

/// A `for` loop whose body is only such a `with` block, with no control flow
/// inside, stands in for parametrize: it is never a `ZR001` finding.
pub proof fn law_raising_loop_is_not_conditional(
    ns: Seq<SyntaxNode>,
    hs: Seq<Seq<char>>,
    fr: int,
    b: int,
    w: int,
    c: int,
    x: int,
    n: Seq<char>,
)
    requires
        kind(ns, fr) == "for_statement"@,
        field_child(ns, fr, "body"@) == Some(b),
        0 <= b < ns.len(),
        ns[b].end <= ns.len(),
        b < w < ns[b].end,
        named_child_of(ns, b, w),
        forall|d: int| b < d < ns[b].end && named_child_of(ns, b, d) ==> d == w,
        !has_control_flow(ns, b),
        kind(ns, w) == "with_statement"@,
        w < c < ns[w].end,
        named_child_of(ns, w, c),
        (c == x && kind(ns, x) == "with_item"@) || (kind(ns, c) == "with_clause"@ && c < x < ns[c].end && named_child_of(
            ns,
            c,
            x,
        ) && kind(ns, x) == "with_item"@),
        kind(ns, item_value(ns, x)) == "call"@,
        call_name(ns, item_value(ns, x)) == Some(n),
        n == "assertRaises"@ || n == "assertWarns"@ || n == "assertRaisesRegex"@ || n == "assertWarnsRegex"@ || n
            == "raises"@ || n == "warns"@,
    ensures
        parametrize_substitute(ns, hs, fr),
        forall|asserts: bool| !offends(ns, hs, asserts, fr),
        forall|k: int| 0 <= k < conditional_findings(ns, hs).len() ==> #[trigger] conditional_findings(ns, hs)[k].0 != fr,
{
    law_raising_with_is_an_assertion(ns, hs, w, c, x, n);
    lemma_single_kid_flags(ns, hs, b, w, b + 1);
    reveal_strlit("for_statement");
    reveal_strlit("if_statement");
    reveal_strlit("while_statement");
    reveal_strlit("match_statement");
    reveal_strlit("try_statement");
    assert forall|asserts: bool| !offends(ns, hs, asserts, fr) by {
        assert(kind(ns, fr)[0] == 'f');
        assert("if_statement"@[0] == 'i');
        assert("while_statement"@[0] == 'w');
        assert("match_statement"@[0] == 'm');
        assert("try_statement"@[0] == 't');
        assert(kind(ns, fr) != "if_statement"@);
        assert(kind(ns, fr) != "while_statement"@);
        assert(kind(ns, fr) != "match_statement"@);
        assert(kind(ns, fr) != "try_statement"@);
    }
    assert forall|k: int| 0 <= k < conditional_findings(ns, hs).len() implies #[trigger] conditional_findings(ns, hs)[k].0
        != fr by {
        let f = |t: int| conditional_for(ns, hs, t);
        let ts = crate::ast::test_fns(ns);
        lemma_over_tests_member(ts, f, k);
        let (i, j) = choose|i: int, j: int|
            0 <= i < ts.len() && 0 <= j < f(ts[i] as int).len() && #[trigger] f(ts[i] as int)[j] == conditional_findings(ns, hs)[k];
        let t = ts[i] as int;
        reveal(conditional_for);
        crate::tree::lemma_first_where(t + 1, ns[t].end as int, |c: int| crate::tree::in_field(ns, t, "body"@, c));
        match field_child(ns, t, "body"@) {
            Some(tb) => {
                if !(crate::ast::skip_or_xfail(ns, t) || crate::ast::runtime_skip(ns, t)) {
                    let asserts = walk_first(ns, tb, |n: int| crate::rules::zr001_conditional::assert_shaped(ns, hs, n)) is Some;
                    let p = |n: int| offends(ns, hs, asserts, n);
                    crate::ast::lemma_first_from_in(ns, ns[tb].end as int, tb + 1, p);
                    match walk_first(ns, tb, p) {
                        Some(o) => {
                            assert(p(o));
                            assert(!offends(ns, hs, asserts, fr));
                            assert(o >= 0);
                            assert(conditional_for(ns, hs, t) == seq![(o as usize, crate::rules::zr001_conditional::MESSAGE@)]);
                            assert(o != fr);
                        },
                        None => {},
                    }
                }
            },
            None => {},
        }
    }
}

/// The built-in assertion helpers of `ZR003`: unittest's `assert*` methods and
/// `fail`.
pub open spec fn builtin_helper(h: Seq<char>) -> bool {
    h == "assertEqual"@ || h == "assertNotEqual"@ || h == "assertTrue"@ || h == "assertFalse"@ || h == "assertIs"@ || h == "assertIsNot"@ || h == "assertIsNone"@ || h == "assertIsNotNone"@ || h == "assertIn"@ || h == "assertNotIn"@ || h == "assertIsInstance"@ || h == "assertNotIsInstance"@ || h == "assertRaises"@ || h == "assertRaisesRegex"@ || h == "assertWarns"@ || h == "assertWarnsRegex"@ || h == "assertAlmostEqual"@ || h == "assertNotAlmostEqual"@ || h == "assertGreater"@ || h == "assertGreaterEqual"@ || h == "assertLess"@ || h == "assertLessEqual"@ || h == "assertRegex"@ || h == "assertNotRegex"@ || h == "assertCountEqual"@ || h == "assertListEqual"@ || h == "assertTupleEqual"@ || h == "assertDictEqual"@ || h == "assertSetEqual"@ || h == "assertMultiLineEqual"@ || h == "assertSequenceEqual"@ || h == "fail"@
}

/// Whatever the configuration, every built-in assertion helper counts as an
/// assertion for `ZR003`: configured helpers add to the list, never replace it.
pub proof fn law_builtin_helpers_always_count(c: Config, r: RuleConfig, h: Seq<char>)
    requires
        forall|x: Seq<char>|
            #[trigger] has_str(r.zr003.helpers@, x) <==> (default_helpers_spec().contains(x) || opt_strings(
                c.raw_rules().zr003.extra_helpers,
            ).contains(x)),
        builtin_helper(h),
    ensures
        has_str(r.zr003.helpers@, h),
{
    let d = default_helpers_spec();
    assert(d[0] == "assertEqual"@);
    assert(d[1] == "assertNotEqual"@);
    assert(d[2] == "assertTrue"@);
    assert(d[3] == "assertFalse"@);
    assert(d[4] == "assertIs"@);
    assert(d[5] == "assertIsNot"@);
    assert(d[6] == "assertIsNone"@);
    assert(d[7] == "assertIsNotNone"@);
    assert(d[8] == "assertIn"@);
    assert(d[9] == "assertNotIn"@);
    assert(d[10] == "assertIsInstance"@);
    assert(d[11] == "assertNotIsInstance"@);
    assert(d[12] == "assertRaises"@);
    assert(d[13] == "assertRaisesRegex"@);
    assert(d[14] == "assertWarns"@);
    assert(d[15] == "assertWarnsRegex"@);
    assert(d[16] == "assertAlmostEqual"@);
    assert(d[17] == "assertNotAlmostEqual"@);
    assert(d[18] == "assertGreater"@);
    assert(d[19] == "assertGreaterEqual"@);
    assert(d[20] == "assertLess"@);
    assert(d[21] == "assertLessEqual"@);
    assert(d[22] == "assertRegex"@);
    assert(d[23] == "assertNotRegex"@);
    assert(d[24] == "assertCountEqual"@);
    assert(d[25] == "assertListEqual"@);
    assert(d[26] == "assertTupleEqual"@);
    assert(d[27] == "assertDictEqual"@);
    assert(d[28] == "assertSetEqual"@);
    assert(d[29] == "assertMultiLineEqual"@);
    assert(d[30] == "assertSequenceEqual"@);
    assert(d[31] == "fail"@);
    assert(d.contains(h));
}

/// The rule code `code` is among the disabled rules of `r`.
pub open spec fn lists_disabled(r: RuleConfig, code: Seq<char>) -> bool {
    exists|i: int| 0 <= i < r.disabled@.len() && (#[trigger] r.disabled@[i])@ == code
}

/// A rule is disabled exactly when its table sets `enabled = false`, for each
/// of the eight rules.
pub proof fn law_disabled_rules_are_those_switched_off(c: Config, r: RuleConfig)
    requires
        r.disabled@.map_values(|s: &'static str| s@) == disabled_spec(c.raw_rules()),
    ensures
        lists_disabled(r, "ZR001"@) <==> c.raw_rules().zr001.enabled == Some(false),
        lists_disabled(r, "ZR002"@) <==> c.raw_rules().zr002.enabled == Some(false),
        lists_disabled(r, "ZR003"@) <==> c.raw_rules().zr003.enabled == Some(false),
        lists_disabled(r, "ZR004"@) <==> c.raw_rules().zr004.enabled == Some(false),
        lists_disabled(r, "ZR005"@) <==> c.raw_rules().zr005.enabled == Some(false),
        lists_disabled(r, "ZR006"@) <==> c.raw_rules().zr006.enabled == Some(false),
        lists_disabled(r, "ZR007"@) <==> c.raw_rules().zr007.enabled == Some(false),
        lists_disabled(r, "ZR008"@) <==> c.raw_rules().zr008.enabled == Some(false),
{
    let codes = seq!["ZR001"@, "ZR002"@, "ZR003"@, "ZR004"@, "ZR005"@, "ZR006"@, "ZR007"@, "ZR008"@];
    let rr = c.raw_rules();
    let en = seq![
        rr.zr001.enabled,
        rr.zr002.enabled,
        rr.zr003.enabled,
        rr.zr004.enabled,
        rr.zr005.enabled,
        rr.zr006.enabled,
        rr.zr007.enabled,
        rr.zr008.enabled
    ];
    lemma_codes_differ();
    let d = disabled_spec(rr);
    let v = r.disabled@.map_values(|s: &'static str| s@);
    assert forall|k: int| 0 <= k < 8 implies (lists_disabled(r, #[trigger] codes[k]) <==> en[k] == Some(false)) by {
        lemma_disabled_contains(rr, codes[k]);
        if lists_disabled(r, codes[k]) {
            let i = choose|i: int| 0 <= i < r.disabled@.len() && (#[trigger] r.disabled@[i])@ == codes[k];
            assert(v[i] == codes[k]);
        }
        if d.contains(codes[k]) {
            let i = choose|i: int| 0 <= i < d.len() && d[i] == codes[k];
            assert(r.disabled@[i]@ == v[i]);
        }
    }
    assert(lists_disabled(r, codes[0]) <==> en[0] == Some(false));
    assert(lists_disabled(r, codes[1]) <==> en[1] == Some(false));
    assert(lists_disabled(r, codes[2]) <==> en[2] == Some(false));
    assert(lists_disabled(r, codes[3]) <==> en[3] == Some(false));
    assert(lists_disabled(r, codes[4]) <==> en[4] == Some(false));
    assert(lists_disabled(r, codes[5]) <==> en[5] == Some(false));
    assert(lists_disabled(r, codes[6]) <==> en[6] == Some(false));
    assert(lists_disabled(r, codes[7]) <==> en[7] == Some(false));
}

/// The eight rule codes differ in their last character.
proof fn lemma_codes_differ()
    ensures
        "ZR001"@.len() == 5 && "ZR001"@[4] == '1',
        "ZR002"@.len() == 5 && "ZR002"@[4] == '2',
        "ZR003"@.len() == 5 && "ZR003"@[4] == '3',
        "ZR004"@.len() == 5 && "ZR004"@[4] == '4',
        "ZR005"@.len() == 5 && "ZR005"@[4] == '5',
        "ZR006"@.len() == 5 && "ZR006"@[4] == '6',
        "ZR007"@.len() == 5 && "ZR007"@[4] == '7',
        "ZR008"@.len() == 5 && "ZR008"@[4] == '8',
{
    reveal_strlit("ZR001");
    reveal_strlit("ZR002");
    reveal_strlit("ZR003");
    reveal_strlit("ZR004");
    reveal_strlit("ZR005");
    reveal_strlit("ZR006");
    reveal_strlit("ZR007");
    reveal_strlit("ZR008");
}

/// `code` is among the codes `disabled_spec` lists exactly when that rule's
/// `enabled` is `Some(false)`.
proof fn lemma_disabled_contains(rr: RawRules, code: Seq<char>)
    requires
        code == "ZR001"@ || code == "ZR002"@ || code == "ZR003"@ || code == "ZR004"@ || code == "ZR005"@ || code
            == "ZR006"@ || code == "ZR007"@ || code == "ZR008"@,
    ensures
        disabled_spec(rr).contains(code) <==> (
            (code == "ZR001"@ && rr.zr001.enabled == Some(false))
            || (code == "ZR002"@ && rr.zr002.enabled == Some(false))
            || (code == "ZR003"@ && rr.zr003.enabled == Some(false))
            || (code == "ZR004"@ && rr.zr004.enabled == Some(false))
            || (code == "ZR005"@ && rr.zr005.enabled == Some(false))
            || (code == "ZR006"@ && rr.zr006.enabled == Some(false))
            || (code == "ZR007"@ && rr.zr007.enabled == Some(false))
            || (code == "ZR008"@ && rr.zr008.enabled == Some(false))),
{
    lemma_codes_differ();
    let p0 = off(rr.zr001.enabled, "ZR001"@);
    let p1 = off(rr.zr002.enabled, "ZR002"@);
    let p2 = off(rr.zr003.enabled, "ZR003"@);
    let p3 = off(rr.zr004.enabled, "ZR004"@);
    let p4 = off(rr.zr005.enabled, "ZR005"@);
    let p5 = off(rr.zr006.enabled, "ZR006"@);
    let p6 = off(rr.zr007.enabled, "ZR007"@);
    let p7 = off(rr.zr008.enabled, "ZR008"@);
    lemma_seq_concat_contains_all_elements(p0, p1, code);
    lemma_seq_concat_contains_all_elements(p0 + p1, p2, code);
    lemma_seq_concat_contains_all_elements(p0 + p1 + p2, p3, code);
    lemma_seq_concat_contains_all_elements(p0 + p1 + p2 + p3, p4, code);
    lemma_seq_concat_contains_all_elements(p0 + p1 + p2 + p3 + p4, p5, code);
    lemma_seq_concat_contains_all_elements(p0 + p1 + p2 + p3 + p4 + p5, p6, code);
    lemma_seq_concat_contains_all_elements(p0 + p1 + p2 + p3 + p4 + p5 + p6, p7, code);
    lemma_off_contains(rr.zr001.enabled, "ZR001"@, code);
    lemma_off_contains(rr.zr002.enabled, "ZR002"@, code);
    lemma_off_contains(rr.zr003.enabled, "ZR003"@, code);
    lemma_off_contains(rr.zr004.enabled, "ZR004"@, code);
    lemma_off_contains(rr.zr005.enabled, "ZR005"@, code);
    lemma_off_contains(rr.zr006.enabled, "ZR006"@, code);
    lemma_off_contains(rr.zr007.enabled, "ZR007"@, code);
    lemma_off_contains(rr.zr008.enabled, "ZR008"@, code);
}

/// `off(enabled, c)` holds `x` exactly when the rule is switched off and `x`
/// is its code.
proof fn lemma_off_contains(enabled: Option<bool>, c: Seq<char>, x: Seq<char>)
    ensures
        off(enabled, c).contains(x) <==> (enabled == Some(false) && x == c),
{
    if enabled == Some(false) {
        assert(off(enabled, c)[0] == c);
    }
}

} // verus!
