use zorilla::config::{Config, RuleConfig};
use zorilla::report::Finding;
use zorilla::rules::zr004_assertion_roulette::{AssertionRouletteRule};
use zorilla::rules::Context;
use zorilla::suppress::Suppressions;
use zorilla::tree::parse;

fn run(src: &str) -> Vec<Finding> {
    run_with(src, &Config::default().rule_config())
}

fn run_with(src: &str, config: &RuleConfig) -> Vec<Finding> {
    let tree = parse(src).unwrap();
    let suppressions = Suppressions::empty();
    let ctx = Context { file: "example.py", source: src, tree: &tree, config, suppressions: &suppressions };
    let mut out = Vec::new();
    AssertionRouletteRule.check(&ctx, &mut out);
    out
}

#[test]
fn fires_on_five_bare_asserts_at_default_threshold() {
    let src = "\
def test_many():
    assert 1 == 1
    assert 2 == 2
    assert 3 == 3
    assert 4 == 4
    assert 5 == 5
";
    let out = run(src);
    assert_eq!(out.len(), 1);
    assert_eq!(out[0].code, "ZR004");
    // Reports at the first bare assert.
    assert_eq!(out[0].line, 2);
    assert_eq!(out[0].column, 5);
    assert!(out[0].message.contains('5'));
    assert!(out[0].message.contains('4'));
}

#[test]
fn does_not_fire_on_four_bare_asserts() {
    let src = "\
def test_ok():
    assert 1 == 1
    assert 2 == 2
    assert 3 == 3
    assert 4 == 4
";
    assert!(run(src).is_empty());
}

#[test]
fn does_not_fire_on_six_message_carrying_asserts() {
    let src = "\
def test_many_with_messages():
    assert 1 == 1, \"a\"
    assert 2 == 2, \"b\"
    assert 3 == 3, \"c\"
    assert 4 == 4, \"d\"
    assert 5 == 5, \"e\"
    assert 6 == 6, \"f\"
";
    assert!(run(src).is_empty());
}

#[test]
fn does_not_fire_on_test_with_no_asserts() {
    let src = "\
def test_empty_ish():
    do_work()
";
    assert!(run(src).is_empty());
}

#[test]
fn counts_asserts_inside_nested_helpers() {
    // Asserts inside an inline helper count toward the enclosing
    // test's total. The subjects are deliberately mixed (`a`, `b`,
    // `log`) so the single-subject contract exemption does not apply
    // and the test keeps pinning the counting behaviour.
    let src = "\
def test_with_helper():
    def check_all(a, b):
        assert a.x == 1
        assert b.y == 2
        assert a.z == 3
    a, b = f()
    assert log.lines == []
    assert a.ok
    check_all(a, b)
";
    let out = run(src);
    assert_eq!(out.len(), 1);
}

// --- Single-subject contract exemption (issue #23) ---

#[test]
fn does_not_fire_on_six_bare_asserts_about_one_subject() {
    // The reproduction from issue #23: one record, six fields. Every
    // failing line names its field, so there is nothing to
    // reconstruct — not roulette.
    let src = "\
def test_record_contract():
    record = SimpleNamespace(name=\"demo\", enabled=True, count=2, tags=[], mode=\"safe\", owner=None)
    assert record.name == \"demo\"
    assert record.enabled is True
    assert record.count == 2
    assert record.tags == []
    assert record.mode == \"safe\"
    assert record.owner is None
";
    assert!(run(src).is_empty());
}

#[test]
fn fires_on_six_bare_asserts_about_several_subjects() {
    // The same count spread over the result, the mock, the log and
    // the database is a sprawling test: split it.
    let src = "\
def test_sprawl():
    result = run()
    assert result.ok
    assert result.code == 0
    assert mock.call_count == 1
    assert log.lines == []
    assert db.rows == []
    assert clock.now == 0
";
    let out = run(src);
    assert_eq!(out.len(), 1);
    assert_eq!(out[0].line, 3);
    assert!(out[0].message.contains("6 > 4"));
}

#[test]
fn one_stray_subject_among_many_still_fires() {
    let src = "\
def test_mostly_one_record():
    assert record.a == 1
    assert record.b == 2
    assert record.c == 3
    assert record.d == 4
    assert other.e == 5
";
    let out = run(src);
    assert_eq!(out.len(), 1);
    assert_eq!(out[0].line, 2, "reported at the first bare assert");
}

#[test]
fn membership_asserts_take_the_container_as_subject() {
    // `x in result`: the subject is what is being searched, on the
    // right-hand side. Twelve substring checks against one rendered
    // report are one contract.
    let src = "\
def test_report_contract():
    assert \"--- Tokens ---\" in result
    assert \"Cost: $0.18\" in result
    assert \"output $0.06\" in result
    assert \"cache read\" in result
    assert \"Tokens: 118,500\" in result
    assert \"noise\" not in result
";
    assert!(run(src).is_empty());
}

#[test]
fn subscripts_calls_and_conversions_keep_the_subject() {
    // `row[0]`, `float(row[4])`, `len(row)`, `row.count(1)` and
    // `isinstance(row, tuple)` are all about `row`.
    let src = "\
def test_rollup_contract():
    assert row[0] == verdict.n_requests
    assert row[1] == verdict.n_gaps
    assert float(row[4]) == pytest.approx(verdict.cost)
    assert len(row) == 7
    assert row.count(None) == 0
    assert isinstance(row, tuple)
";
    assert!(run(src).is_empty());
}

#[test]
fn negation_parentheses_and_boolean_operators_keep_the_subject() {
    let src = "\
def test_flags_contract():
    assert not record.deleted
    assert (record.active)
    assert record.a and record.b
    assert record.c or record.d
    assert -record.balance == 0
    assert record
";
    assert!(run(src).is_empty());
}

#[test]
fn a_table_of_calls_on_literals_has_no_subject_and_fires() {
    // `f(1) == 1`, `f(2) == 2`, ...: nothing named is under test in a
    // way the reader can identify from one line. That is
    // `@pytest.mark.parametrize` territory, so the threshold applies.
    let src = "\
def test_table():
    assert f(1) == 1
    assert f(2) == 2
    assert f(3) == 3
    assert f(4) == 4
    assert f(5) == 5
";
    let out = run(src);
    assert_eq!(out.len(), 1);
    assert_eq!(out[0].line, 2);
}

#[test]
fn self_and_cls_are_not_subjects_but_the_attribute_after_them_is() {
    // `self.result.*` is one subject: the test case instance is a
    // namespace, not a thing under test.
    let one_subject = "\
class TestThing:
    def test_result_contract(self):
        assert self.result.a == 1
        assert self.result.b == 2
        assert self.result.c == 3
        assert self.result.d == 4
        assert self.result.e == 5
";
    assert!(run(one_subject).is_empty());
    // `self.a`, `self.b`, ...: five different attributes of the
    // instance are five subjects.
    let many_subjects = "\
class TestThing:
    def test_attributes(self):
        assert self.a == 1
        assert self.b == 2
        assert self.c == 3
        assert self.d == 4
        assert self.e == 5
";
    let out = run(many_subjects);
    assert_eq!(out.len(), 1);
    assert_eq!(out[0].line, 3);
}

#[test]
fn a_bare_self_has_no_subject() {
    let src = "\
class TestThing:
    def test_self(self):
        assert self
        assert self
        assert self
        assert self
        assert self
";
    let out = run(src);
    assert_eq!(out.len(), 1);
    assert_eq!(out[0].line, 3);
}

#[test]
fn exemption_is_not_capped_by_the_threshold() {
    // A long contract is still one contract. Length is not this
    // rule's smell; identifiability is.
    let mut src = String::from("def test_long_contract():\n");
    for i in 0..12 {
        src.push_str(&format!("    assert record.f{i} == {i}\n"));
    }
    assert!(run(&src).is_empty());
}

#[test]
fn message_asserts_do_not_take_part_in_the_subject_set() {
    // Message-carrying asserts are not counted, so they cannot break
    // an otherwise single-subject run either.
    let src = "\
def test_contract_with_one_explained_check():
    assert record.a == 1
    assert record.b == 2
    assert record.c == 3
    assert record.d == 4
    assert record.e == 5
    assert other.ready, \"other must be ready before the record is read\"
";
    assert!(run(src).is_empty());
}

#[test]
fn keyword_argument_to_a_free_function_is_not_a_subject() {
    // `assert all(x for x in rows)` and `assert sorted(rows, key=f)`:
    // only a positional first argument names a subject; a generator
    // or a keyword-only call has none, so the threshold applies.
    let src = "\
def test_generators():
    assert all(r.ok for r in rows)
    assert all(r.ok for r in rows)
    assert all(r.ok for r in rows)
    assert all(r.ok for r in rows)
    assert all(r.ok for r in rows)
";
    let out = run(src);
    assert_eq!(out.len(), 1);
    assert_eq!(out[0].line, 2);
}

#[test]
fn await_keeps_the_subject() {
    let src = "\
async def test_client_contract(client):
    assert await client.ping()
    assert await client.status() == 200
    assert (await client.body()) == \"ok\"
    assert await client.headers()
    assert not await client.closed()
";
    assert!(run(src).is_empty());
}

#[test]
fn cls_is_a_namespace_like_self() {
    let src = "\
class TestThing:
    def test_shared_result_contract(cls):
        assert cls.result.a == 1
        assert cls.result.b == 2
        assert cls.result.c == 3
        assert cls.result.d == 4
        assert cls.result.e == 5
";
    assert!(run(src).is_empty());
}

#[test]
fn one_subjectless_assert_withdraws_the_exemption() {
    // Four asserts about `record` plus a bare `assert True`: the
    // `None` in the tail is what breaks the run, not a second name.
    let src = "\
def test_record_then_true():
    assert record.a == 1
    assert record.b == 2
    assert record.c == 3
    assert record.d == 4
    assert True
";
    let out = run(src);
    assert_eq!(out.len(), 1);
    assert_eq!(out[0].line, 2);
}

#[test]
fn a_leading_comment_inside_the_assert_does_not_hide_the_subject() {
    let src = "\
def test_commented_contract():
    assert (
        # the name is the display name
        record.name == \"demo\"
    )
    assert len(
        # tags are a list
        record.tags,
    ) == 0
    assert record.c == 3
    assert record.d == 4
    assert record.e == 5
";
    assert!(run(src).is_empty());
}

#[test]
fn respects_configured_max_asserts() {
    // With max_asserts = 2, three bare asserts fire.
    let src = "\
def test_three():
    assert 1 == 1
    assert 2 == 2
    assert 3 == 3
";
    let mut cfg = Config::default().rule_config();
    cfg.zr004.max_asserts = 2;
    let out = run_with(src, &cfg);
    assert_eq!(out.len(), 1);
    assert_eq!(out[0].line, 2);
    assert!(out[0].message.contains("3 > 2"));
}

#[test]
fn zr004_assertion_roulette_fires_on_method_of_test_class() {
    let src = "\
class TestThing:
    def test_method(self):
        assert 1 == 1
        assert 2 == 2
        assert 3 == 3
        assert 4 == 4
        assert 5 == 5
";
    let out = run(src);
    assert_eq!(out.len(), 1);
    assert_eq!(out[0].line, 3);
}

#[test]
fn zr004_assertion_roulette_does_not_fire_on_pytest_mark_skip() {
    // Skipped tests don't execute — their bare-assert count is
    // academic. Mirrors ZR007's gate.
    let src = "\
@pytest.mark.skip
def test_x():
    assert 1 == 1
    assert 2 == 2
    assert 3 == 3
    assert 4 == 4
    assert 5 == 5
";
    assert!(run(src).is_empty());
}

#[test]
fn zr004_assertion_roulette_does_not_fire_on_pytest_mark_skip_with_reason() {
    let src = "\
@pytest.mark.skip(reason=\"todo\")
def test_x():
    assert 1 == 1
    assert 2 == 2
    assert 3 == 3
    assert 4 == 4
    assert 5 == 5
";
    assert!(run(src).is_empty());
}

#[test]
fn zr004_assertion_roulette_does_not_fire_on_pytest_mark_xfail() {
    let src = "\
@pytest.mark.xfail
def test_x():
    assert 1 == 1
    assert 2 == 2
    assert 3 == 3
    assert 4 == 4
    assert 5 == 5
";
    assert!(run(src).is_empty());
}

#[test]
fn zr004_assertion_roulette_does_not_fire_on_method_of_class_decorated_with_pytest_mark_skip() {
    let src = "\
@pytest.mark.skip
class TestX:
    def test_y(self):
        assert 1 == 1
        assert 2 == 2
        assert 3 == 3
        assert 4 == 4
        assert 5 == 5
";
    assert!(run(src).is_empty());
}

#[test]
fn zr004_assertion_roulette_fires_on_pytest_mark_skipif() {
    // `skipif` is conditional — body runs on the non-skipped path,
    // so the bare-assert count still counts. Matches ZR007.
    let src = "\
@pytest.mark.skipif(True, reason=\"x\")
def test_x():
    assert 1 == 1
    assert 2 == 2
    assert 3 == 3
    assert 4 == 4
    assert 5 == 5
";
    let out = run(src);
    assert_eq!(out.len(), 1);
    assert_eq!(out[0].code, "ZR004");
}

#[test]
fn does_not_fire_on_non_test_function_with_many_asserts() {
    let src = "\
def _helper():
    assert 1 == 1
    assert 2 == 2
    assert 3 == 3
    assert 4 == 4
    assert 5 == 5

def test_ok():
    assert True
";
    assert!(run(src).is_empty());
}

#[test]
fn zr004_assertion_roulette_does_not_fire_on_runtime_skip_call_as_first_statement() {
    // A test whose first statement is `self.skipTest(...)` is
    // unconditionally skipped — its bare-assert count is academic.
    // Mirrors the decorator-based skip gate.
    let src = "\
class TestThing:
    def test_skipped_many_asserts(self):
        self.skipTest(\"not ready\")
        assert 1 == 1
        assert 2 == 2
        assert 3 == 3
        assert 4 == 4
        assert 5 == 5
";
    assert!(run(src).is_empty());
}

#[test]
fn zr004_assertion_roulette_fires_when_runtime_skip_is_not_first_statement() {
    // The skip call is after real asserts; the test still fires.
    let src = "\
def test_asserts_then_skip():
    assert 1 == 1
    assert 2 == 2
    assert 3 == 3
    assert 4 == 4
    assert 5 == 5
    pytest.skip(\"reason\")
";
    let out = run(src);
    assert_eq!(out.len(), 1);
    assert_eq!(out[0].code, "ZR004");
}
