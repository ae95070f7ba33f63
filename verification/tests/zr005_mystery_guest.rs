use zorilla::config::{Config, RuleConfig};
use zorilla::report::Finding;
use zorilla::rules::zr005_mystery_guest::{MysteryGuestRule, MESSAGE_LITERAL_MAX};
use zorilla::rules::Context;
use zorilla::suppress::Suppressions;
use zorilla::tree::parse;

fn run(src: &str) -> Vec<Finding> {
    run_with(src, &Config::default().rule_config())
}

fn run_with(src: &str, config: &RuleConfig) -> Vec<Finding> {
    let tree = parse(src).unwrap();
    let suppressions = Suppressions::empty();
    let ctx = Context { file: "example.py", source: src, tree: &tree, config, suppressions: &suppressions };
    let mut out = Vec::new();
    MysteryGuestRule.check(&ctx, &mut out);
    out
}

#[test]
fn fires_on_absolute_unix_path() {
    let src = "\
def test_reads():
    data = open(\"/etc/myapp/config\").read()
    assert data
";
    let out = run(src);
    assert_eq!(out.len(), 1);
    assert_eq!(out[0].code, "ZR005");
    assert_eq!(out[0].line, 2);
    assert!(out[0].message.contains("/etc/myapp/config"));
}

#[test]
fn fires_on_https_url() {
    let src = "\
def test_fetches():
    r = get(\"https://api.example.com/v1\")
    assert r
";
    let out = run(src);
    assert_eq!(out.len(), 1);
    assert!(out[0].message.contains("https://api.example.com/v1"));
}

#[test]
fn fires_on_home_path() {
    let src = "\
def test_reads_home():
    data = open(\"~/data.txt\").read()
    assert data
";
    let out = run(src);
    assert_eq!(out.len(), 1);
}

#[test]
fn fires_on_windows_drive_path() {
    // Raw string so we don't have to escape backslashes in the Python
    // literal; tree-sitter-python still parses this as a `string`.
    let src = "\
def test_windows():
    data = open(r\"C:\\Users\\alice\\data.txt\").read()
    assert data
";
    let out = run(src);
    assert_eq!(out.len(), 1);
}

#[test]
fn fires_once_per_literal_in_same_test() {
    let src = "\
def test_two():
    a = open(\"/etc/a\").read()
    b = get(\"https://api.example.com\")
    assert a and b
";
    let out = run(src);
    assert_eq!(out.len(), 2);
    assert_eq!(out[0].line, 2);
    assert_eq!(out[1].line, 3);
}

#[test]
fn does_not_fire_on_relative_path() {
    let src = "\
def test_relative():
    data = open(\"fixtures/sample.json\").read()
    assert data
";
    assert!(run(src).is_empty());
}

#[test]
fn does_not_fire_on_assert_message_string() {
    let src = "\
def test_msg():
    assert exists(p), \"/etc/hosts should be there\"
";
    assert!(run(src).is_empty());
}

#[test]
fn allowed_prefix_silences_matching_literal() {
    let src = "\
def test_local():
    r = get(\"http://localhost:8080/v1\")
    assert r
";
    let mut cfg = Config::default().rule_config();
    cfg.zr005.allowed_prefixes = vec!["http://localhost".to_string()];
    assert!(run_with(src, &cfg).is_empty());
}

#[test]
fn allowed_prefix_does_not_silence_other_literals() {
    let src = "\
def test_mixed():
    r = get(\"http://localhost/\")
    s = get(\"https://api.example.com/\")
    assert r and s
";
    let mut cfg = Config::default().rule_config();
    cfg.zr005.allowed_prefixes = vec!["http://localhost".to_string()];
    let out = run_with(src, &cfg);
    assert_eq!(out.len(), 1);
    assert!(out[0].message.contains("https://api.example.com"));
}

#[test]
fn does_not_fire_on_fstring_literal() {
    // f-strings are deliberately out of scope in v0.1.
    let src = "\
def test_fstring():
    base = \"example.com\"
    r = get(f\"https://{base}/v1\")
    assert r
";
    assert!(run(src).is_empty());
}

#[test]
fn zr005_mystery_guest_fires_on_method_of_test_class() {
    let src = "\
class TestThing:
    def test_method(self):
        data = open(\"/etc/hosts\").read()
        assert data
";
    let out = run(src);
    assert_eq!(out.len(), 1);
    assert_eq!(out[0].line, 3);
}

#[test]
fn does_not_fire_on_mystery_literal_outside_any_test() {
    let src = "\
def _helper():
    return open(\"/etc/hosts\").read()


def test_ok():
    data = _helper()
    assert data
";
    assert!(run(src).is_empty());
}

#[test]
fn does_not_fire_on_parenthesized_assert_message() {
    // `assert cond, ("msg")` — the literal is still the failure
    // message, even though the grammar wraps it in a
    // `parenthesized_expression`.
    let src = "\
def test_msg():
    assert exists(p), (\"/etc/hosts should be there\")
";
    assert!(run(src).is_empty());
}

#[test]
fn truncates_long_literal_in_message() {
    // A pathological long literal should not produce a multi-kilobyte
    // finding message.
    let long_path = "/".to_string() + &"a".repeat(500);
    let src = format!("def test_long():\n    open(\"{long_path}\")\n    assert True\n");
    let out = run(&src);
    assert_eq!(out.len(), 1);
    // Message length stays bounded — the literal contribution is
    // capped at MESSAGE_LITERAL_MAX (+ ellipsis + format prefix).
    assert!(
        out[0].message.len() < 200,
        "ZR005 message should be bounded; got {} chars",
        out[0].message.len()
    );
    assert!(out[0].message.contains("..."), "expected truncation marker in message");
}

#[test]
fn empty_allowed_prefix_does_not_silence_findings() {
    // Regression guard: an empty-string prefix would trivially match
    // every literal via `starts_with("")`. Config layer strips empty
    // entries; here we verify the rule code is safe even if such an
    // entry leaks through.
    let src = "\
def test_url():
    r = get(\"https://api.example.com\")
    assert r
";
    let mut cfg = Config::default().rule_config();
    cfg.zr005.allowed_prefixes = vec![String::new()];
    // The rule must NOT silence the finding just because the empty
    // string is technically a prefix of every literal.
    let out = run_with(src, &cfg);
    assert_eq!(out.len(), 1, "empty prefix must not silence ZR005");
}

#[test]
fn fires_on_logger_call_with_url() {
    // Strings used as call arguments to non-assert functions still
    // count — v0.1 is deliberately opinionated.
    let src = "\
def test_logs():
    logger.info(\"https://api.example.com\")
    assert True
";
    let out = run(src);
    assert_eq!(out.len(), 1);
}

#[test]
fn does_not_fire_on_client_get_url() {
    // `client.get("/api/v1/users")` is the canonical FastAPI /
    // Starlette TestClient pattern. The path literal is a fixture-like
    // route reference, not a mystery guest — skip it.
    let src = "\
def test_lists_users():
    resp = client.get(\"/api/v1/users\")
    assert resp.ok
";
    assert!(run(src).is_empty());
}

#[test]
fn does_not_fire_on_self_test_client_post() {
    let src = "\
class TestUsers:
    def test_creates(self):
        resp = self.test_client.post(\"/users\")
        assert resp.ok
";
    assert!(run(src).is_empty());
}

#[test]
fn does_not_fire_on_async_client_method_chain() {
    // `await self.async_client.post("/users", json=...)` — the URL
    // string is still the first positional argument of the `.post`
    // call, so the heuristic kicks in.
    let src = "\
class TestUsers:
    async def test_creates(self):
        resp = await self.async_client.post(\"/users\", json={\"name\": \"a\"})
        assert resp.ok
";
    assert!(run(src).is_empty());
}

#[test]
fn does_not_fire_on_app_get_path() {
    // Lock in the `app` receiver: `app.get("/x")` is recognised as a
    // TestClient call and the route literal is skipped.
    let src = "\
def test_requests():
    resp = app.get(\"/x\")
    assert resp.ok
";
    assert!(run(src).is_empty());
}

#[test]
fn fires_on_app_request_second_positional() {
    // Design decision: the TestClient heuristic skips only the FIRST
    // positional string argument. `.request(...)` is unusual in that
    // its URL is the SECOND positional (the first being the HTTP
    // method name like `"GET"`). Rather than special-case `.request`
    // we keep the predicate uniform — first-positional only — and
    // accept that `app.request("GET", "/x")` will still flag `/x`.
    let src = "\
def test_requests():
    resp = app.request(\"GET\", \"/x\")
    assert resp.ok
";
    let out = run(src);
    assert_eq!(out.len(), 1);
    assert!(out[0].message.contains("/x"));
}

#[test]
fn fires_on_non_first_positional_url() {
    // A URL hidden inside a kwarg dict value still fires — the
    // TestClient skip only applies to the first positional argument.
    let src = "\
def test_with_headers():
    resp = client.get(\"/healthz\", headers={\"x\": \"https://leak.example/\"})
    assert resp.ok
";
    let out = run(src);
    // `/healthz` is skipped (first positional). The leak URL inside
    // the dict is a string nested inside a `dictionary` literal — it
    // is NOT the first positional argument of the `.get` call.
    assert_eq!(out.len(), 1);
    assert!(out[0].message.contains("https://leak.example/"));
}

#[test]
fn fires_when_receiver_name_not_in_heuristic() {
    // `random_thing` is not in RECEIVER_NAMES → ZR005 still fires.
    let src = "\
def test_misc():
    resp = random_thing.get(\"/x\")
    assert resp.ok
";
    let out = run(src);
    assert_eq!(out.len(), 1);
    assert!(out[0].message.contains("/x"));
}

#[test]
fn fires_on_unknown_method_on_client() {
    // `client.weirdmethod("/x")` — `weirdmethod` is not in
    // HTTP_METHODS, so the heuristic doesn't apply and ZR005 fires.
    let src = "\
def test_weird():
    resp = client.weirdmethod(\"/x\")
    assert resp.ok
";
    let out = run(src);
    assert_eq!(out.len(), 1);
    assert!(out[0].message.contains("/x"));
}

#[test]
fn does_not_fire_on_authenticated_client_get() {
    // `authenticated_client` is the canonical pytest fixture name in
    // alma / esl test suites — exercise the literal-list addition.
    let src = "\
def test_lists_users():
    resp = authenticated_client.get(\"/api/users\")
    assert resp.ok
";
    assert!(run(src).is_empty());
}

#[test]
fn does_not_fire_on_suffix_match_kube_client_get() {
    // `*_client` suffix match — `kube_client` is not in the literal
    // list but should still be recognised as a TestClient receiver.
    let src = "\
def test_lists_pods():
    resp = kube_client.get(\"/api/v1/pods\")
    assert resp.ok
";
    assert!(run(src).is_empty());
}

#[test]
fn does_not_fire_on_self_admin_client_post() {
    // Suffix match also applies through `self.<X>`.
    let src = "\
class TestAdmin:
    def test_creates(self):
        resp = self.admin_client.post(\"/items\", json={\"x\": 1})
        assert resp.ok
";
    assert!(run(src).is_empty());
}

#[test]
fn does_not_fire_on_sql_comment_literal() {
    // `/* ... */` is a SQL / C-style comment. parlint had one ZR005
    // hit on a SQL audit query — silence it.
    let src = "\
def test_query():
    sql = \"/* warm up cache */ SELECT 1\"
    assert sql
";
    assert!(run(src).is_empty());
}

#[test]
fn does_not_fire_on_mock_return_value_assignment_rhs() {
    // cteni's 48-hit pattern: configuring `.return_value` with a
    // path string is mock setup, not a request target.
    let src = "\
def test_uses_mock():
    mock_repo.return_value = \"/srv/data/file.txt\"
    assert mock_repo.return_value
";
    assert!(run(src).is_empty());
}

#[test]
fn does_not_fire_on_chained_attribute_return_value_rhs() {
    // The carve-out works for chained attributes too —
    // `a.b.return_value = "..."` — since `attribute`'s `attribute`
    // field always points at the rightmost name.
    let src = "\
def test_uses_chain():
    mock_obj.get.return_value = \"/api/v1/users\"
    assert mock_obj.get.return_value
";
    assert!(run(src).is_empty());
}

#[test]
fn does_not_fire_on_mock_side_effect_assignment_rhs() {
    let src = "\
def test_uses_side_effect():
    mock_obj.side_effect = \"/var/run/socket\"
    assert mock_obj.side_effect
";
    assert!(run(src).is_empty());
}

#[test]
fn fires_on_mock_other_attribute_assignment_rhs() {
    // Only `return_value` and `side_effect` are carved out — other
    // attribute names (`.url`, `.path`, …) still fire. Locks in the
    // narrow scope.
    let src = "\
def test_uses_url_attr():
    mock_obj.url = \"/srv/data/file.txt\"
    assert mock_obj.url
";
    let out = run(src);
    assert_eq!(out.len(), 1);
    assert!(out[0].message.contains("/srv/data/file.txt"));
}

#[test]
fn does_not_fire_on_header_assertion_substring_check() {
    // alma's 2-hit pattern: `assert "..." in response.headers["..."]`.
    let src = "\
def test_redirect_target():
    resp = client.get(\"/login\")
    assert \"/dashboard\" in resp.headers[\"location\"]
";
    assert!(run(src).is_empty());
}

#[test]
fn fires_on_membership_check_when_rhs_is_not_headers_subscript() {
    // The header-assertion carve-out requires the RHS of `in` to be
    // a `.headers[...]` subscript. When the RHS is something else
    // (e.g. a list literal), the literal still fires — the carve-out
    // is narrowly scoped to the actual FastAPI / Starlette header
    // pattern.
    let src = "\
def test_in_list_of_urls():
    assert \"/dashboard\" in [\"https://example.com/x\", \"/dashboard\"]
";
    let out = run(src);
    // Three string literals trip the path/URL prefix: `/dashboard`
    // on the LHS, `https://…` and `/dashboard` inside the list.
    // None are silenced because the RHS subscript-on-`.headers`
    // shape is not present.
    assert_eq!(out.len(), 3);
}

#[test]
fn does_not_fire_on_string_inside_pytest_fixture_function() {
    // `@pytest.fixture` function bodies hold fixture data, not
    // request targets. Note this is forward-compat: today's
    // `iter_test_functions` filter already skips fixtures, but the
    // carve-out locks in the principle.
    //
    // Inside the fixture, we deliberately *name* the function
    // `test_data` (starts with `test_`) so it IS visited by
    // `iter_test_functions`. The carve-out must still kick in.
    let src = "\
import pytest

@pytest.fixture
def test_data():
    return \"https://api.example.com/fixture\"
";
    assert!(run(src).is_empty());
}

#[test]
fn does_not_fire_on_bare_fixture_alias() {
    // `from pytest import fixture` lets users decorate with bare
    // `@fixture`. The carve-out matches that shape too.
    let src = "\
from pytest import fixture

@fixture
def test_data():
    return \"https://api.example.com/fixture\"
";
    assert!(run(src).is_empty());
}

// NOTE: This test was previously named `fires_on_url_in_regular_test_function_not_fixture`
// and asserted that `build_repo(url="https://github.com/owner/repo")` FIRES.
// That premise is intentionally inverted by carve-out 1c: when the literal is
// the value of a keyword argument whose name is in URL_KWARG_NAMES (e.g. `url=`),
// it is treated as a reference identity declaration, not a mystery guest.
// The test is renamed and its assertion updated accordingly.
#[test]
fn does_not_fire_on_url_kwarg_value() {
    // 1c carve-out: `url=` is in URL_KWARG_NAMES, so the literal is
    // a reference identity, not a mystery guest. This is the canonical
    // GithubProject(url=...) / build_repo(url=...) pattern.
    let src = "\
def test_uses_url_inline():
    repo = build_repo(url=\"https://github.com/owner/repo\")
    assert repo
";
    assert!(run(src).is_empty());
}

#[test]
fn fires_on_url_in_non_url_kwarg() {
    // Guard: a non-listed kwarg name (`data`) does not trigger 1c.
    let src = "\
def test_uses_data_kwarg():
    result = make_thing(data=\"https://leak.example/\")
    assert result
";
    let out = run(src);
    assert_eq!(out.len(), 1);
    assert!(out[0].message.contains("https://leak.example/"));
}

#[test]
fn fires_on_headers_membership_check_outside_assert() {
    // Lock in the `assert_statement` guard inside
    // `is_in_response_headers_membership_check`. The carve-out is
    // scoped *exactly* to membership checks that are the asserted
    // expression of an `assert_statement`. A bare `if "/x" in
    // resp.headers["L"]:` reuses the same `comparison_operator` shape
    // but is NOT an assertion — the literal should still fire.
    //
    // Without this test, a future refactor that drops the assert-
    // statement check would silently widen the carve-out and only
    // corpus testing would catch the regression.
    let src = "\
def test_inline_membership():
    resp = client.get(\"/login\")
    if \"/dashboard\" in resp.headers[\"location\"]:
        handle()
";
    let out = run(src);
    assert_eq!(out.len(), 1);
    assert!(out[0].message.contains("/dashboard"));
}

#[test]
fn fires_on_client_like_name_without_underscore_client_suffix() {
    // `clientmgr` ends with `client` but NOT with `_client` — the
    // suffix matcher requires the underscore separator, so this
    // still fires.
    let src = "\
def test_mgr():
    resp = clientmgr.get(\"/x\")
    assert resp.ok
";
    let out = run(src);
    assert_eq!(out.len(), 1);
    assert!(out[0].message.contains("/x"));
}

// ── 1c: kwarg-name aware carve-out ──────────────────────────────────────

#[test]
fn does_not_fire_on_url_kwarg_with_https_url() {
    // 1c positive: `url=` is in URL_KWARG_NAMES; the GitHub URL is a
    // reference identity, not a mystery guest.
    let src = "\
def test_builds_repo():
    repo = build_repo(url=\"https://github.com/o/r\")
    assert repo
";
    assert!(run(src).is_empty());
}

#[test]
fn fires_on_https_url_in_non_listed_kwarg() {
    // 1c negative: `data` is not in URL_KWARG_NAMES, so the literal fires.
    let src = "\
def test_makes_thing():
    result = make_thing(data=\"https://leak.example/\")
    assert result
";
    let out = run(src);
    assert_eq!(out.len(), 1);
    assert!(out[0].message.contains("https://leak.example/"));
}

#[test]
fn does_not_fire_on_endpoint_kwarg() {
    // 1c positive: `endpoint` is in URL_KWARG_NAMES.
    let src = "\
def test_endpoint():
    client = MyClient(endpoint=\"https://github.com/o/r\")
    assert client
";
    assert!(run(src).is_empty());
}

// ── 1d: dict-pair-value aware carve-out ─────────────────────────────────

#[test]
fn does_not_fire_on_url_dict_pair_value() {
    // 1d positive: `{"url": "..."}` — key is the string `"url"` which
    // is in URL_KWARG_NAMES; the value URL is not a mystery guest.
    let src = "\
def test_cfg():
    cfg = {\"url\": \"https://github.com/o/r\"}
    assert cfg
";
    assert!(run(src).is_empty());
}

#[test]
fn fires_on_https_url_in_non_listed_dict_key() {
    // 1d negative: `"data"` is not in URL_KWARG_NAMES, so the URL fires.
    let src = "\
def test_data_dict():
    d = {\"data\": \"https://leak.example/\"}
    assert d
";
    let out = run(src);
    assert_eq!(out.len(), 1);
    assert!(out[0].message.contains("https://leak.example/"));
}

#[test]
fn fires_on_https_url_in_dict_pair_with_non_string_key() {
    // 1d guard: the key must be a string literal. A non-string key
    // (an identifier like `KEY`) does NOT trigger the carve-out.
    let src = "\
def test_var_key():
    d = {KEY: \"https://leak.example/\"}
    assert d
";
    let out = run(src);
    assert_eq!(out.len(), 1);
    assert!(out[0].message.contains("https://leak.example/"));
}
