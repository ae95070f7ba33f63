//! The parts of the command line that decide rather than do: reading a
//! `--files-from` line, the `list-rules` table, and `explain`'s rule lookup.
use vstd::prelude::*;
use crate::overview::{pad, push_padded};
use crate::rules::{all, all_rules, find, rule_code, rule_for, rule_name, RuleId};
use crate::suppress::{upper, upper_range};
use crate::text::{ends_with, push_str, slice_chars, starts_with, str_chars, string_of, trim, trimmed};

verus! {

/// A `--files-from` line as a path: one trailing `\r` dropped, then trimmed;
/// blank lines and `#` comments give none.
pub open spec fn files_from_line(line: Seq<char>) -> Option<Seq<char>> {
    let t = trim(if ends_with(line, "\r"@) { line.drop_last() } else { line });
    if t.len() == 0 || starts_with(t, "#"@) {
        None
    } else {
        Some(t)
    }
}

/// One line of `--files-from` input as a path (see [`files_from_line`]).
pub fn parse_files_from_line(line: &str) -> (r: Option<String>)
    ensures
        match files_from_line(line@) {
            Some(t) => r matches Some(s) && s@ == t,
            None => r is None,
        },
{
    let cs = str_chars(line);
    proof {
        reveal_strlit("\r");
        assert("\r"@ =~= seq!['\r']);
        if cs@.len() > 0 {
            assert(cs@.subrange(cs@.len() - 1, cs@.len() as int) =~= seq![cs@[cs@.len() - 1]]);
            if cs@[cs@.len() - 1] == '\r' {
                assert(line@.subrange(line@.len() - 1, line@.len() as int) =~= "\r"@);
            } else {
                assert(line@.subrange(line@.len() - 1, line@.len() as int)[0] != "\r"@[0]);
            }
        } else {
            assert(!ends_with(line@, "\r"@));
        }
    }
    let body = if cs.len() > 0 && cs[cs.len() - 1] == '\r' {
        slice_chars(&cs, 0, cs.len() - 1)
    } else {
        slice_chars(&cs, 0, cs.len())
    };
    assert(body@ =~= (if ends_with(line@, "\r"@) {
        line@.drop_last()
    } else {
        line@
    }));
    let t = trimmed(&body);
    proof {
        reveal_strlit("#");
        assert("#"@ =~= seq!['#']);
        if t@.len() > 0 {
            if t@[0] == '#' {
                assert(t@.subrange(0, 1) =~= "#"@);
            } else {
                assert(t@.subrange(0, 1)[0] != "#"@[0]);
            }
        }
    }
    if t.len() == 0 || t[0] == '#' {
        return None;
    }
    Some(string_of(&t))
}

/// The `list-rules` table: a header, then one row per rule in code order; code
/// and name left-aligned in columns 6 and 26 wide, then whether the rule is on
/// by default.
pub open spec fn rules_table_spec() -> Seq<char> {
    pad("CODE"@, 6) + pad("NAME"@, 26) + "DEFAULT\n"@ + rows_spec(all_rules())
}

pub open spec fn rows_spec(rs: Seq<RuleId>) -> Seq<char>
    decreases rs.len(),
{
    if rs.len() == 0 {
        Seq::empty()
    } else {
        rows_spec(rs.drop_last()) + pad(rule_code(rs.last()), 6) + pad(rule_name(rs.last()), 26) + "on\n"@
    }
}

/// The `list-rules` table (see [`rules_table_spec`]).
pub fn rules_table() -> (r: String)
    ensures
        r@ == rules_table_spec(),
{
    let mut out: Vec<char> = Vec::new();
    push_padded(&mut out, &str_chars("CODE"), 6);
    push_padded(&mut out, &str_chars("NAME"), 26);
    push_str(&mut out, "DEFAULT\n");
    let ghost head = out@;
    let rules = all();
    let mut k: usize = 0;
    while k < rules.len()
        invariant
            rules@ == all_rules(),
            k <= rules@.len(),
            out@ == head + rows_spec(all_rules().take(k as int)),
        decreases rules.len() - k,
    {
        let r = rules[k];
        proof {
            assert(all_rules().take(k + 1).drop_last() =~= all_rules().take(k as int));
            assert(all_rules().take(k + 1).last() == r);
        }
        push_padded(&mut out, &str_chars(r.code()), 6);
        push_padded(&mut out, &str_chars(r.name()), 26);
        let on = if r.default_enabled() { "on\n" } else { "off\n" };
        push_str(&mut out, on);
        assert(out@ =~= head + rows_spec(all_rules().take(k + 1)));
        k = k + 1;
    }
    assert(all_rules().take(8) =~= all_rules());
    assert(head =~= pad("CODE"@, 6) + pad("NAME"@, 26) + "DEFAULT\n"@);
    string_of(&out)
}

/// The long-form documentation of a rule: a `# CODE name` heading, then what
/// the rule flags.
pub open spec fn doc_spec(r: RuleId) -> Seq<char> {
    "# "@ + rule_code(r) + " "@ + rule_name(r) + "\n\n"@ + doc_body(r)
}

pub open spec fn doc_body(r: RuleId) -> Seq<char> {
    match r {
        RuleId::Zr001 => ZR001_BODY@,
        RuleId::Zr002 => ZR002_BODY@,
        RuleId::Zr003 => ZR003_BODY@,
        RuleId::Zr004 => ZR004_BODY@,
        RuleId::Zr005 => ZR005_BODY@,
        RuleId::Zr006 => ZR006_BODY@,
        RuleId::Zr007 => ZR007_BODY@,
        RuleId::Zr008 => ZR008_BODY@,
    }
}

pub const ZR001_BODY: &'static str = "A test whose own control flow branches: an `if`, `while` or `match`, a `try` with an `except`, or a `for` loop. A loop of assertions standing in for `@pytest.mark.parametrize`, and a cleanup loop in a test that asserts nothing, do not count. Inline helpers are not looked into.\n";
pub const ZR002_BODY: &'static str = "A `sleep` call (`sleep(...)`, `time.sleep(...)`, `asyncio.sleep(...)`) inside a test. Wait on a condition, an event or a mocked clock instead.\n";
pub const ZR003_BODY: &'static str = "A test with nothing assert-shaped: no `assert`, no assertion-helper call, no `with pytest.raises(...)` block. Tests marked skip or xfail are exempt.\n";
pub const ZR004_BODY: &'static str = "A test with more bare `assert` statements than `max_asserts` about more than one subject. Give the asserts messages, or split the test.\n";
pub const ZR005_BODY: &'static str = "A string literal that reaches outside the test: an absolute or home path, a Windows drive path, or an HTTP(S) URL. Use a fixture, a temporary directory or a parametrized constant.\n";
pub const ZR006_BODY: &'static str = "A test with more `@patch` decorators than `max_patches`. Consider a single fixture.\n";
pub const ZR007_BODY: &'static str = "A test whose body is only `pass`, `...` or a docstring.\n";
pub const ZR008_BODY: &'static str = "A test whose body opens more `with patch(...)` context managers than `max_patches`. Consider a single fixture.\n";

impl RuleId {
    /// The rule's long-form documentation (see [`doc_spec`]).
    pub fn doc(self) -> (r: String)
        ensures
            r@ == doc_spec(self),
    {
        let mut out: Vec<char> = Vec::new();
        push_str(&mut out, "# ");
        push_str(&mut out, self.code());
        push_str(&mut out, " ");
        push_str(&mut out, self.name());
        push_str(&mut out, "\n\n");
        let body = match self {
            RuleId::Zr001 => ZR001_BODY,
            RuleId::Zr002 => ZR002_BODY,
            RuleId::Zr003 => ZR003_BODY,
            RuleId::Zr004 => ZR004_BODY,
            RuleId::Zr005 => ZR005_BODY,
            RuleId::Zr006 => ZR006_BODY,
            RuleId::Zr007 => ZR007_BODY,
            RuleId::Zr008 => ZR008_BODY,
        };
        push_str(&mut out, body);
        assert(out@ =~= doc_spec(self));
        string_of(&out)
    }
}

/// The documentation `explain` prints for `code`, looked up case-insensitively;
/// none for an unknown code.
pub fn explain(code: &str) -> (r: Option<String>)
    ensures
        match rule_for(upper(code@)) {
            Some(rule) => r matches Some(s) && s@ == doc_spec(rule),
            None => r is None,
        },
{
    let cs = str_chars(code);
    let up = upper_range(&cs, 0, cs.len());
    assert(cs@.subrange(0, cs@.len() as int) =~= code@);
    match find(string_of(&up).as_str()) {
        Some(rule) => Some(rule.doc()),
        None => None,
    }
}

} // verus!
