//! `ZR005 mystery-guest`: a string literal in a test that reaches outside it:
//! an absolute path (`/etc/...`, `C:\...`), a home path (`~/...`), or an
//! `http://` / `https://` URL. One finding per literal, at the literal.
//!
//! Not flagged: f-strings; `/*` comment fragments; literals starting with a
//! configured allowed prefix; the message of `assert x, "msg"`; the first
//! positional argument of an HTTP-verb call on a test client
//! (`client.get("/path")`, `self.api.post(...)`, `*_client.get(...)`); the
//! right-hand side of `mock.return_value = ...` / `.side_effect = ...`; the
//! left side of `assert "..." in resp.headers[...]`; strings in a
//! `@fixture` / `@pytest.fixture` function; the value of a `url=`-style
//! keyword argument or of a `{"url": ...}`-style dict entry.
use vstd::prelude::*;
use crate::ast::{
    climb, climb_past_parens, decorator_chain_segments, decorator_segments, field_text, field_text_of, first_named,
    first_named_child, iter_test_functions, kind, named_child_of, named_children, named_kids, names_view, parent_of,
    pick, test_fns,
};
use crate::report::Finding;
use crate::rules::{
    emitted, finding_for, lemma_emitted_push, lemma_emitted_trans, lemma_over_tests_all, lemma_over_tests_step,
    lemma_test_fns_in, over_tests, Context,
};
use crate::text::{
    debug_string, ends_with, ends_with_str, push_all, push_str, slice_chars, starts_with, starts_with_str, str_chars,
    str_debug, str_eq, str_starts_with, string_of,
};
use crate::tree::{depths, desc, end_at, field_child, first_where, lemma_parent, text_of, tree_wf, SyntaxNode, SyntaxTree};

verus! {

/// Longest part of a literal quoted in a finding message, in characters.
pub const MESSAGE_LITERAL_MAX: usize = 80;

/// An ASCII letter.
pub open spec fn ascii_alpha(c: char) -> bool {
    ('a' <= c && c <= 'z') || ('A' <= c && c <= 'Z')
}

/// `name` names an HTTP test client: a listed receiver, or `*_client`.
pub open spec fn receiver_name(n: Seq<char>) -> bool {
    n == "client"@ || n == "http"@ || n == "test_client"@ || n == "app"@ || n == "api"@ || n == "async_client"@
        || n == "ac"@ || n == "authenticated_client"@ || ends_with(n, "_client"@)
}

/// `m` is an HTTP verb method.
pub open spec fn http_method(m: Seq<char>) -> bool {
    m == "get"@ || m == "post"@ || m == "put"@ || m == "delete"@ || m == "patch"@ || m == "options"@ || m
        == "head"@ || m == "request"@
}

/// `n` is a keyword or dict key naming a reference identity.
pub open spec fn url_name(n: Seq<char>) -> bool {
    n == "url"@ || n == "endpoint"@ || n == "href"@ || n == "link"@ || n == "path"@ || n == "id"@ || n == "name"@
}

/// End of the run of ASCII letters starting at `i`.
pub open spec fn alpha_run(s: Seq<char>, i: int) -> int
    decreases s.len() - i,
{
    if 0 <= i < s.len() && ascii_alpha(s[i]) {
        alpha_run(s, i + 1)
    } else {
        i
    }
}

/// `x` without the suffix `d`, when it has it.
pub open spec fn strip_suffix(x: Seq<char>, d: Seq<char>) -> Seq<char> {
    if ends_with(x, d) {
        x.take(x.len() - d.len())
    } else {
        x
    }
}

/// The raw text of a string literal without its prefix letters and one layer
/// of quotes; the raw text itself when it is not quoted.
pub open spec fn strip_quotes(raw: Seq<char>) -> Seq<char> {
    let rest = raw.skip(alpha_run(raw, 0));
    if starts_with(rest, "\"\"\""@) {
        strip_suffix(rest.skip(3), "\"\"\""@)
    } else if starts_with(rest, "'''"@) {
        strip_suffix(rest.skip(3), "'''"@)
    } else if starts_with(rest, "\""@) {
        strip_suffix(rest.skip(1), "\""@)
    } else if starts_with(rest, "'"@) {
        strip_suffix(rest.skip(1), "'"@)
    } else {
        raw
    }
}

/// The content of the string node `n`: `None` for an f-string; the text of its
/// first `string_content` child; else its text with the quotes stripped.
pub open spec fn string_content(ns: Seq<SyntaxNode>, n: int) -> Option<Seq<char>> {
    if exists|c: int| n < c < ns[n].end && named_child_of(ns, n, c) && #[trigger] kind(ns, c) == "interpolation"@ {
        None
    } else {
        match first_where(n + 1, ns[n].end as int, |c: int| named_child_of(ns, n, c) && kind(ns, c) == "string_content"@) {
            Some(c) => text_of(ns, Some(c)),
            None => match text_of(ns, Some(n)) {
                Some(raw) => Some(strip_quotes(raw)),
                None => None,
            },
        }
    }
}

/// `lit` reaches outside the test: an absolute Unix path (not a `/*`
/// comment), an HTTP(S) URL, a home path, or a Windows drive path.
pub open spec fn mystery(lit: Seq<char>) -> bool {
    if starts_with(lit, "/*"@) {
        false
    } else if starts_with(lit, "/"@) {
        true
    } else if starts_with(lit, "http://"@) || starts_with(lit, "https://"@) {
        true
    } else if starts_with(lit, "~/"@) || starts_with(lit, "~\\"@) {
        true
    } else {
        lit.len() >= 3 && ascii_alpha(lit[0]) && lit[1] == ':' && lit[2] == '\\'
    }
}

/// `lit` starts with one of the non-empty `allowed` prefixes.
pub open spec fn allowed_match(allowed: Seq<Seq<char>>, lit: Seq<char>) -> bool {
    exists|i: int| 0 <= i < allowed.len() && allowed[i].len() > 0 && #[trigger] starts_with(lit, allowed[i])
}

/// The string `s` is the message of an `assert x, "msg"`.
pub open spec fn assert_message(ns: Seq<SyntaxNode>, s: int) -> bool {
    let cur = climb(ns, s);
    parent_of(ns, cur) matches Some(p) && kind(ns, p) == "assert_statement"@ && named_kids(ns, p).len() > 1
        && named_kids(ns, p)[1] == cur
}

/// `o` names a test client: `client`, or `self.client`.
pub open spec fn client_receiver(ns: Seq<SyntaxNode>, o: int) -> bool {
    if kind(ns, o) == "identifier"@ {
        text_of(ns, Some(o)) matches Some(n) && receiver_name(n)
    } else if kind(ns, o) == "attribute"@ {
        field_child(ns, o, "object"@) matches Some(i) && kind(ns, i) == "identifier"@ && text_of(ns, Some(i)) == Some(
            "self"@,
        ) && (field_text_of(ns, o, "attribute"@) matches Some(n) && receiver_name(n))
    } else {
        false
    }
}

/// The first named child of the argument list `al` that is not a keyword argument.
pub open spec fn first_positional(ns: Seq<SyntaxNode>, al: int) -> Option<int> {
    first_where(al + 1, ns[al].end as int, |c: int| named_child_of(ns, al, c) && kind(ns, c) != "keyword_argument"@)
}

/// The node `call` calls an HTTP verb method on a test client.
pub open spec fn client_call(ns: Seq<SyntaxNode>, call: int) -> bool {
    kind(ns, call) == "call"@ && (field_child(ns, call, "function"@) matches Some(f) && kind(ns, f) == "attribute"@
        && (field_text_of(ns, f, "attribute"@) matches Some(m) && http_method(m)) && (field_child(
        ns,
        f,
        "object"@,
    ) matches Some(o) && client_receiver(ns, o)))
}

/// The string `s` is the first positional argument of an HTTP-verb call on a
/// test client.
pub open spec fn client_route(ns: Seq<SyntaxNode>, s: int) -> bool {
    parent_of(ns, s) matches Some(al) && kind(ns, al) == "argument_list"@ && first_positional(ns, al) == Some(s) && (
    parent_of(ns, al) matches Some(call) && client_call(ns, call))
}

/// The string `s` is assigned to a mock's `return_value` or `side_effect`.
pub open spec fn mock_setup(ns: Seq<SyntaxNode>, s: int) -> bool {
    let cur = climb(ns, s);
    parent_of(ns, cur) matches Some(p) && kind(ns, p) == "assignment"@ && field_child(ns, p, "right"@) == Some(cur)
        && (field_child(ns, p, "left"@) matches Some(t) && kind(ns, t) == "attribute"@ && (field_text_of(
        ns,
        t,
        "attribute"@,
    ) matches Some(n) && (n == "return_value"@ || n == "side_effect"@)))
}

/// The comparison `c` uses the `in` operator token.
pub open spec fn uses_in(ns: Seq<SyntaxNode>, c: int) -> bool {
    exists|x: int| c < x < ns[c].end && ns[x].parent == c && !ns[x].named && #[trigger] kind(ns, x) == "in"@
}

/// The string `s` is the left side of `assert "..." in resp.headers[...]`.
pub open spec fn header_check(ns: Seq<SyntaxNode>, s: int) -> bool {
    let cur = climb(ns, s);
    parent_of(ns, cur) matches Some(c) && kind(ns, c) == "comparison_operator"@ && named_kids(ns, c).len() == 2
        && named_kids(ns, c)[0] == cur && uses_in(ns, c) && ({
        let rhs = named_kids(ns, c)[1] as int;
        kind(ns, rhs) == "subscript"@ && (field_child(ns, rhs, "value"@) matches Some(v) && kind(ns, v)
            == "attribute"@ && field_text_of(ns, v, "attribute"@) == Some("headers"@))
    }) && (parent_of(ns, c) matches Some(a) && kind(ns, a) == "assert_statement"@ && first_named(ns, a) == Some(c))
}

/// The nearest `function_definition` on the parent chain from `a` (included).
pub open spec fn function_above(ns: Seq<SyntaxNode>, a: int) -> Option<int>
    decreases a,
{
    if a < 0 || a >= ns.len() {
        None
    } else if kind(ns, a) == "function_definition"@ {
        Some(a)
    } else if a == 0 || ns[a].parent >= a {
        None
    } else {
        function_above(ns, ns[a].parent as int)
    }
}

/// The function `f` is decorated with `@fixture` or `@pytest.fixture`.
pub open spec fn fixture_function(ns: Seq<SyntaxNode>, f: int) -> bool {
    parent_of(ns, f) matches Some(p) && kind(ns, p) == "decorated_definition"@ && exists|d: int|
        p < d < ns[p].end && named_child_of(ns, p, d) && kind(ns, d) == "decorator"@ && #[trigger] fixture_segments(
            decorator_segments(ns, d),
        )
}

/// The segments of `@fixture` or `@pytest.fixture`.
pub open spec fn fixture_segments(s: Seq<Seq<char>>) -> bool {
    (s.len() == 1 && s[0] == "fixture"@) || (s.len() == 2 && s[0] == "pytest"@ && s[1] == "fixture"@)
}

/// The string `s` sits in a fixture function.
pub open spec fn in_fixture(ns: Seq<SyntaxNode>, s: int) -> bool {
    match parent_of(ns, s) {
        Some(p) => function_above(ns, p) matches Some(f) && fixture_function(ns, f),
        None => false,
    }
}

/// The string `s` is the value of a `url=`-style keyword argument.
pub open spec fn url_kwarg(ns: Seq<SyntaxNode>, s: int) -> bool {
    let cur = climb(ns, s);
    parent_of(ns, cur) matches Some(p) && kind(ns, p) == "keyword_argument"@ && field_child(ns, p, "value"@) == Some(
        cur,
    ) && (field_text_of(ns, p, "name"@) matches Some(n) && url_name(n))
}

/// The string `s` is the value of a `{"url": ...}`-style dict entry.
pub open spec fn url_pair(ns: Seq<SyntaxNode>, s: int) -> bool {
    let cur = climb(ns, s);
    parent_of(ns, cur) matches Some(p) && kind(ns, p) == "pair"@ && field_child(ns, p, "value"@) == Some(cur) && (
    field_child(ns, p, "key"@) matches Some(k) && kind(ns, k) == "string"@ && (string_content(ns, k) matches Some(
        c,
    ) && url_name(c)))
}

/// The string `s` falls under one of the structural carve-outs.
#[verifier::opaque]
pub open spec fn carved_out(ns: Seq<SyntaxNode>, s: int) -> bool {
    assert_message(ns, s) || client_route(ns, s) || mock_setup(ns, s) || header_check(ns, s) || in_fixture(ns, s)
        || url_kwarg(ns, s) || url_pair(ns, s)
}

/// Node `j` is a mystery-guest literal.
pub open spec fn guest(ns: Seq<SyntaxNode>, allowed: Seq<Seq<char>>, j: int) -> bool {
    kind(ns, j) == "string"@ && !carved_out(ns, j) && (string_content(ns, j) matches Some(lit) && mystery(lit)
        && !allowed_match(allowed, lit))
}

/// `s` cut to `max` characters, with `...` when cut.
pub open spec fn truncated(s: Seq<char>, max: nat) -> Seq<char> {
    if s.len() <= max {
        s
    } else {
        s.take(max as int) + "..."@
    }
}

/// The message for the literal of node `j`.
pub open spec fn guest_message(ns: Seq<SyntaxNode>, j: int) -> Seq<char> {
    "test contains hardcoded external resource: "@ + str_debug(
        truncated(string_content(ns, j)->0, MESSAGE_LITERAL_MAX as nat),
    )
}

/// `ZR005` entries of test `t`: each mystery-guest literal of its body.
#[verifier::opaque]
pub open spec fn guest_for(ns: Seq<SyntaxNode>, allowed: Seq<Seq<char>>, t: int) -> Seq<(usize, Seq<char>)> {
    match field_child(ns, t, "body"@) {
        Some(b) => pick(b, ns[b].end as int, |j: int| guest(ns, allowed, j)).map_values(
            |j: usize| (j, guest_message(ns, j as int)),
        ),
        None => Seq::empty(),
    }
}

/// Every `ZR005` entry of a tree.
pub open spec fn guest_findings(ns: Seq<SyntaxNode>, allowed: Seq<Seq<char>>) -> Seq<(usize, Seq<char>)> {
    over_tests(test_fns(ns), |t: int| guest_for(ns, allowed, t))
}

fn is_ascii_alpha(c: char) -> (r: bool)
    ensures
        r == ascii_alpha(c),
{
    ('a' <= c && c <= 'z') || ('A' <= c && c <= 'Z')
}

fn is_receiver_name(n: &str) -> (r: bool)
    ensures
        r == receiver_name(n@),
{
    str_eq(n, "client") || str_eq(n, "http") || str_eq(n, "test_client") || str_eq(n, "app") || str_eq(n, "api")
        || str_eq(n, "async_client") || str_eq(n, "ac") || str_eq(n, "authenticated_client") || ends_with_str(
        &str_chars(n),
        "_client",
    )
}

fn is_http_method(m: &str) -> (r: bool)
    ensures
        r == http_method(m@),
{
    str_eq(m, "get") || str_eq(m, "post") || str_eq(m, "put") || str_eq(m, "delete") || str_eq(m, "patch") || str_eq(
        m,
        "options",
    ) || str_eq(m, "head") || str_eq(m, "request")
}

fn is_url_name(n: &[char]) -> (r: bool)
    ensures
        r == url_name(n@),
{
    crate::text::eq_str(n, "url") || crate::text::eq_str(n, "endpoint") || crate::text::eq_str(n, "href")
        || crate::text::eq_str(n, "link") || crate::text::eq_str(n, "path") || crate::text::eq_str(n, "id")
        || crate::text::eq_str(n, "name")
}

/// `x` without the suffix `d`, when it has it.
fn strip_suffix_of(x: &Vec<char>, d: &str) -> (r: Vec<char>)
    ensures
        r@ == strip_suffix(x@, d@),
{
    if ends_with_str(x, d) {
        let n = str_chars(d).len();
        slice_chars(x, 0, x.len() - n)
    } else {
        slice_chars(x, 0, x.len())
    }
}

/// The raw literal text without prefix letters and one layer of quotes.
fn strip_quotes_of(raw: &Vec<char>) -> (r: Vec<char>)
    ensures
        r@ == strip_quotes(raw@),
{
    let ghost s = raw@;
    let mut k: usize = 0;
    while k < raw.len() && is_ascii_alpha(raw[k])
        invariant
            s == raw@,
            k <= s.len(),
            alpha_run(s, 0) == alpha_run(s, k as int),
        decreases raw.len() - k,
    {
        k = k + 1;
    }
    let rest = slice_chars(raw, k, raw.len());
    assert(rest@ =~= s.skip(alpha_run(s, 0)));
    if starts_with_str(&rest, "\"\"\"") {
        proof {
            reveal_strlit("\"\"\"");
        }
        let inner = slice_chars(&rest, 3, rest.len());
        assert(inner@ =~= rest@.skip(3));
        strip_suffix_of(&inner, "\"\"\"")
    } else if starts_with_str(&rest, "'''") {
        proof {
            reveal_strlit("'''");
        }
        let inner = slice_chars(&rest, 3, rest.len());
        assert(inner@ =~= rest@.skip(3));
        strip_suffix_of(&inner, "'''")
    } else if starts_with_str(&rest, "\"") {
        proof {
            reveal_strlit("\"");
        }
        let inner = slice_chars(&rest, 1, rest.len());
        assert(inner@ =~= rest@.skip(1));
        strip_suffix_of(&inner, "\"")
    } else if starts_with_str(&rest, "'") {
        proof {
            reveal_strlit("'");
        }
        let inner = slice_chars(&rest, 1, rest.len());
        assert(inner@ =~= rest@.skip(1));
        strip_suffix_of(&inner, "'")
    } else {
        slice_chars(raw, 0, raw.len())
    }
}

/// The content of the string node `n` (see [`string_content`]).
fn string_content_of(tree: &SyntaxTree, n: usize) -> (r: Option<Vec<char>>)
    requires
        tree_wf(tree.nodes@),
        n < tree.nodes@.len(),
    ensures
        match string_content(tree.nodes@, n as int) {
            Some(c) => r matches Some(v) && v@ == c,
            None => r is None,
        },
{
    let ghost ns = tree.nodes@;
    let end = tree.nodes[n].end;
    assert(end_at(depths(ns), n as int, end as int));
    let mut c = n + 1;
    while c < end
        invariant
            ns == tree.nodes@,
            n < c <= end <= ns.len(),
            end == ns[n as int].end,
            forall|d: int| n < d < c && named_child_of(ns, n as int, d) ==> #[trigger] kind(ns, d) != "interpolation"@,
        decreases end - c,
    {
        if tree.nodes[c].parent == n && tree.nodes[c].named && tree.kind_is(c, "interpolation") {
            proof {
                assert(named_child_of(ns, n as int, c as int) && kind(ns, c as int) == "interpolation"@);
            }
            return None;
        }
        c = c + 1;
    }
    let ghost pr = |c: int| named_child_of(ns, n as int, c) && kind(ns, c) == "string_content"@;
    let mut c = n + 1;
    while c < end
        invariant
            ns == tree.nodes@,
            n < c <= end <= ns.len(),
            end == ns[n as int].end,
            pr == (|c: int| named_child_of(ns, n as int, c) && kind(ns, c) == "string_content"@),
            first_where(n + 1, end as int, pr) == first_where(c as int, end as int, pr),
            forall|d: int| n < d < end && named_child_of(ns, n as int, d) ==> #[trigger] kind(ns, d) != "interpolation"@,
        decreases end - c,
    {
        if tree.nodes[c].parent == n && tree.nodes[c].named && tree.kind_is(c, "string_content") {
            return match tree.text_at(c) {
                Some(t) => Some(str_chars(t.as_str())),
                None => None,
            };
        }
        c = c + 1;
    }
    match tree.text_at(n) {
        Some(raw) => Some(strip_quotes_of(&str_chars(raw.as_str()))),
        None => None,
    }
}

/// Whether the literal `lit` reaches outside the test.
fn is_mystery_guest(lit: &Vec<char>) -> (r: bool)
    ensures
        r == mystery(lit@),
{
    if starts_with_str(lit, "/*") {
        false
    } else if starts_with_str(lit, "/") {
        true
    } else if starts_with_str(lit, "http://") || starts_with_str(lit, "https://") {
        true
    } else if starts_with_str(lit, "~/") || starts_with_str(lit, "~\\") {
        true
    } else {
        lit.len() >= 3 && is_ascii_alpha(lit[0]) && lit[1] == ':' && lit[2] == '\\'
    }
}

/// Whether `lit` starts with one of the non-empty `allowed` prefixes.
fn is_allowed(allowed: &Vec<String>, lit: &Vec<char>) -> (r: bool)
    ensures
        r == allowed_match(names_view(allowed@), lit@),
{
    let ghost av = names_view(allowed@);
    let mut i: usize = 0;
    while i < allowed.len()
        invariant
            i <= allowed@.len(),
            av == names_view(allowed@),
            av.len() == allowed@.len(),
            forall|j: int| 0 <= j < i ==> !(av[j].len() > 0 && #[trigger] starts_with(lit@, av[j])),
        decreases allowed.len() - i,
    {
        let p = str_chars(allowed[i].as_str());
        assert(av[i as int] == allowed@[i as int]@);
        if p.len() > 0 && starts_with_str(lit, allowed[i].as_str()) {
            return true;
        }
        i = i + 1;
    }
    false
}

/// Whether the string `s` is an assert message.
fn is_assert_message(tree: &SyntaxTree, s: usize) -> (r: bool)
    requires
        tree_wf(tree.nodes@),
        s < tree.nodes@.len(),
    ensures
        r == assert_message(tree.nodes@, s as int),
{
    let ghost ns = tree.nodes@;
    let cur = climb_past_parens(tree, s);
    if cur == 0 {
        return false;
    }
    proof {
        lemma_parent(ns, cur as int);
    }
    let p = tree.nodes[cur].parent;
    if !tree.kind_is(p, "assert_statement") {
        return false;
    }
    let kids = named_children(tree, p);
    kids.len() > 1 && kids[1] == cur
}

/// Whether `o` names a test client.
fn matches_receiver(tree: &SyntaxTree, o: usize) -> (r: bool)
    requires
        tree_wf(tree.nodes@),
        o < tree.nodes@.len(),
    ensures
        r == client_receiver(tree.nodes@, o as int),
{
    if tree.kind_is(o, "identifier") {
        match tree.text_at(o) {
            Some(n) => is_receiver_name(n.as_str()),
            None => false,
        }
    } else if tree.kind_is(o, "attribute") {
        let i = match tree.child_by_field(o, "object") {
            Some(i) => i,
            None => return false,
        };
        if !tree.kind_is(i, "identifier") {
            return false;
        }
        let self_ok = match tree.text_at(i) {
            Some(t) => str_eq(t.as_str(), "self"),
            None => false,
        };
        if !self_ok {
            return false;
        }
        match field_text(tree, o, "attribute") {
            Some(n) => is_receiver_name(n.as_str()),
            None => false,
        }
    } else {
        false
    }
}

/// The first positional argument of the argument list `al`.
fn first_positional_arg(tree: &SyntaxTree, al: usize) -> (r: Option<usize>)
    requires
        tree_wf(tree.nodes@),
        al < tree.nodes@.len(),
    ensures
        match first_positional(tree.nodes@, al as int) {
            Some(c) => r matches Some(x) && x == c,
            None => r is None,
        },
{
    let ghost ns = tree.nodes@;
    let ghost pr = |c: int| named_child_of(ns, al as int, c) && kind(ns, c) != "keyword_argument"@;
    let end = tree.nodes[al].end;
    assert(end_at(depths(ns), al as int, end as int));
    let mut c = al + 1;
    while c < end
        invariant
            ns == tree.nodes@,
            al < c <= end <= ns.len(),
            end == ns[al as int].end,
            pr == (|c: int| named_child_of(ns, al as int, c) && kind(ns, c) != "keyword_argument"@),
            first_where(al + 1, end as int, pr) == first_where(c as int, end as int, pr),
        decreases end - c,
    {
        if tree.nodes[c].parent == al && tree.nodes[c].named && !tree.kind_is(c, "keyword_argument") {
            return Some(c);
        }
        c = c + 1;
    }
    None
}

/// Whether `call` calls an HTTP verb method on a test client.
fn is_client_call(tree: &SyntaxTree, call: usize) -> (r: bool)
    requires
        tree_wf(tree.nodes@),
        call < tree.nodes@.len(),
    ensures
        r == client_call(tree.nodes@, call as int),
{
    if !tree.kind_is(call, "call") {
        return false;
    }
    let f = match tree.child_by_field(call, "function") {
        Some(f) => f,
        None => return false,
    };
    if !tree.kind_is(f, "attribute") {
        return false;
    }
    let method_ok = match field_text(tree, f, "attribute") {
        Some(m) => is_http_method(m.as_str()),
        None => false,
    };
    if !method_ok {
        return false;
    }
    match tree.child_by_field(f, "object") {
        Some(o) => matches_receiver(tree, o),
        None => false,
    }
}

/// Whether the string `s` is a test-client route.
fn is_in_test_client_call(tree: &SyntaxTree, s: usize) -> (r: bool)
    requires
        tree_wf(tree.nodes@),
        s < tree.nodes@.len(),
    ensures
        r == client_route(tree.nodes@, s as int),
{
    let ghost ns = tree.nodes@;
    if s == 0 {
        return false;
    }
    proof {
        lemma_parent(ns, s as int);
    }
    let al = tree.nodes[s].parent;
    if !tree.kind_is(al, "argument_list") {
        return false;
    }
    match first_positional_arg(tree, al) {
        Some(x) => {
            if x != s {
                return false;
            }
        },
        None => return false,
    }
    if al == 0 {
        return false;
    }
    proof {
        lemma_parent(ns, al as int);
    }
    let call = tree.nodes[al].parent;
    is_client_call(tree, call)
}

/// Whether the string `s` is mock setup data.
fn is_in_mock_attribute_assignment_rhs(tree: &SyntaxTree, s: usize) -> (r: bool)
    requires
        tree_wf(tree.nodes@),
        s < tree.nodes@.len(),
    ensures
        r == mock_setup(tree.nodes@, s as int),
{
    let ghost ns = tree.nodes@;
    let cur = climb_past_parens(tree, s);
    if cur == 0 {
        return false;
    }
    proof {
        lemma_parent(ns, cur as int);
    }
    let p = tree.nodes[cur].parent;
    if !tree.kind_is(p, "assignment") {
        return false;
    }
    match tree.child_by_field(p, "right") {
        Some(rhs) => {
            if rhs != cur {
                return false;
            }
        },
        None => return false,
    }
    let t = match tree.child_by_field(p, "left") {
        Some(t) => t,
        None => return false,
    };
    if !tree.kind_is(t, "attribute") {
        return false;
    }
    match field_text(tree, t, "attribute") {
        Some(n) => str_eq(n.as_str(), "return_value") || str_eq(n.as_str(), "side_effect"),
        None => false,
    }
}

/// Whether the comparison `c` uses the `in` operator token.
fn comparison_uses_in_operator(tree: &SyntaxTree, c: usize) -> (r: bool)
    requires
        tree_wf(tree.nodes@),
        c < tree.nodes@.len(),
    ensures
        r == uses_in(tree.nodes@, c as int),
{
    let ghost ns = tree.nodes@;
    let end = tree.nodes[c].end;
    assert(end_at(depths(ns), c as int, end as int));
    let mut x = c + 1;
    while x < end
        invariant
            ns == tree.nodes@,
            c < x <= end <= ns.len(),
            end == ns[c as int].end,
            forall|y: int| c < y < x && ns[y].parent == c && !ns[y].named ==> #[trigger] kind(ns, y) != "in"@,
        decreases end - x,
    {
        if tree.nodes[x].parent == c && !tree.nodes[x].named && tree.kind_is(x, "in") {
            proof {
                assert(kind(ns, x as int) == "in"@);
            }
            return true;
        }
        x = x + 1;
    }
    false
}

/// Whether the string `s` is a response-header substring check.
fn is_in_response_headers_membership_check(tree: &SyntaxTree, s: usize) -> (r: bool)
    requires
        tree_wf(tree.nodes@),
        s < tree.nodes@.len(),
    ensures
        r == header_check(tree.nodes@, s as int),
{
    let ghost ns = tree.nodes@;
    let cur = climb_past_parens(tree, s);
    if cur == 0 {
        return false;
    }
    proof {
        lemma_parent(ns, cur as int);
    }
    let c = tree.nodes[cur].parent;
    if !tree.kind_is(c, "comparison_operator") {
        return false;
    }
    let kids = named_children(tree, c);
    if kids.len() != 2 || kids[0] != cur {
        return false;
    }
    if !comparison_uses_in_operator(tree, c) {
        return false;
    }
    let rhs = kids[1];
    assert(desc(ns, c as int, kids@[1] as int));
    if !tree.kind_is(rhs, "subscript") {
        return false;
    }
    let v = match tree.child_by_field(rhs, "value") {
        Some(v) => v,
        None => return false,
    };
    if !tree.kind_is(v, "attribute") {
        return false;
    }
    let headers_ok = match field_text(tree, v, "attribute") {
        Some(n) => str_eq(n.as_str(), "headers"),
        None => false,
    };
    if !headers_ok {
        return false;
    }
    if c == 0 {
        return false;
    }
    proof {
        lemma_parent(ns, c as int);
    }
    let a = tree.nodes[c].parent;
    if !tree.kind_is(a, "assert_statement") {
        return false;
    }
    match first_named_child(tree, a) {
        Some(x) => x == c,
        None => false,
    }
}

/// Whether the function `f` carries `@fixture` / `@pytest.fixture`.
fn function_has_pytest_fixture_decorator(tree: &SyntaxTree, f: usize) -> (r: bool)
    requires
        tree_wf(tree.nodes@),
        f < tree.nodes@.len(),
    ensures
        r == fixture_function(tree.nodes@, f as int),
{
    let ghost ns = tree.nodes@;
    if f == 0 {
        return false;
    }
    proof {
        lemma_parent(ns, f as int);
    }
    let p = tree.nodes[f].parent;
    if !tree.kind_is(p, "decorated_definition") {
        return false;
    }
    let end = tree.nodes[p].end;
    assert(end_at(depths(ns), p as int, end as int));
    let mut d = p + 1;
    while d < end
        invariant
            ns == tree.nodes@,
            tree_wf(ns),
            p < d <= end <= ns.len(),
            end == ns[p as int].end,
            p == ns[f as int].parent,
            f > 0,
            kind(ns, p as int) == "decorated_definition"@,
            forall|e: int|
                p < e < d && named_child_of(ns, p as int, e) && kind(ns, e) == "decorator"@ ==> !#[trigger] fixture_segments(
                    decorator_segments(ns, e),
                ),
        decreases end - d,
    {
        if tree.nodes[d].parent == p && tree.nodes[d].named && tree.kind_is(d, "decorator") {
            let segs = decorator_chain_segments(tree, d);
            let ghost sv = names_view(segs@);
            assert(sv.len() == segs@.len());
            let hit = if segs.len() == 1 {
                assert(sv[0] == segs@[0]@);
                str_eq(segs[0].as_str(), "fixture")
            } else if segs.len() == 2 {
                assert(sv[0] == segs@[0]@ && sv[1] == segs@[1]@);
                str_eq(segs[0].as_str(), "pytest") && str_eq(segs[1].as_str(), "fixture")
            } else {
                false
            };
            if hit {
                proof {
                    assert(fixture_segments(decorator_segments(ns, d as int)));
                }
                return true;
            }
        }
        d = d + 1;
    }
    false
}

/// Whether the string `s` sits in a fixture function.
fn is_in_pytest_fixture_function(tree: &SyntaxTree, s: usize) -> (r: bool)
    requires
        tree_wf(tree.nodes@),
        s < tree.nodes@.len(),
    ensures
        r == in_fixture(tree.nodes@, s as int),
{
    let ghost ns = tree.nodes@;
    if s == 0 {
        return false;
    }
    proof {
        lemma_parent(ns, s as int);
    }
    let mut a = tree.nodes[s].parent;
    loop
        invariant
            ns == tree.nodes@,
            tree_wf(ns),
            a < ns.len(),
            s > 0,
            function_above(ns, ns[s as int].parent as int) == function_above(ns, a as int),
        decreases a,
    {
        if tree.kind_is(a, "function_definition") {
            return function_has_pytest_fixture_decorator(tree, a);
        }
        if a == 0 {
            return false;
        }
        proof {
            lemma_parent(ns, a as int);
        }
        a = tree.nodes[a].parent;
    }
}

/// Whether the string `s` is the value of a `url=`-style keyword argument.
fn is_in_url_kwarg(tree: &SyntaxTree, s: usize) -> (r: bool)
    requires
        tree_wf(tree.nodes@),
        s < tree.nodes@.len(),
    ensures
        r == url_kwarg(tree.nodes@, s as int),
{
    let ghost ns = tree.nodes@;
    let cur = climb_past_parens(tree, s);
    if cur == 0 {
        return false;
    }
    proof {
        lemma_parent(ns, cur as int);
    }
    let p = tree.nodes[cur].parent;
    if !tree.kind_is(p, "keyword_argument") {
        return false;
    }
    match tree.child_by_field(p, "value") {
        Some(v) => {
            if v != cur {
                return false;
            }
        },
        None => return false,
    }
    match field_text(tree, p, "name") {
        Some(n) => is_url_name(&str_chars(n.as_str())),
        None => false,
    }
}

/// Whether the string `s` is the value of a `{"url": ...}`-style dict entry.
fn is_in_url_dict_pair(tree: &SyntaxTree, s: usize) -> (r: bool)
    requires
        tree_wf(tree.nodes@),
        s < tree.nodes@.len(),
    ensures
        r == url_pair(tree.nodes@, s as int),
{
    let ghost ns = tree.nodes@;
    let cur = climb_past_parens(tree, s);
    if cur == 0 {
        return false;
    }
    proof {
        lemma_parent(ns, cur as int);
    }
    let p = tree.nodes[cur].parent;
    if !tree.kind_is(p, "pair") {
        return false;
    }
    match tree.child_by_field(p, "value") {
        Some(v) => {
            if v != cur {
                return false;
            }
        },
        None => return false,
    }
    let k = match tree.child_by_field(p, "key") {
        Some(k) => k,
        None => return false,
    };
    if !tree.kind_is(k, "string") {
        return false;
    }
    match string_content_of(tree, k) {
        Some(c) => is_url_name(&c),
        None => false,
    }
}

/// Whether the string `s` falls under a carve-out.
fn is_carved_out(tree: &SyntaxTree, s: usize) -> (r: bool)
    requires
        tree_wf(tree.nodes@),
        s < tree.nodes@.len(),
    ensures
        r == carved_out(tree.nodes@, s as int),
{
    reveal(carved_out);
    is_assert_message(tree, s) || is_in_test_client_call(tree, s) || is_in_mock_attribute_assignment_rhs(tree, s)
        || is_in_response_headers_membership_check(tree, s) || is_in_pytest_fixture_function(tree, s)
        || is_in_url_kwarg(tree, s) || is_in_url_dict_pair(tree, s)
}

/// The content of `j` when `j` is a mystery-guest literal.
fn guest_literal(tree: &SyntaxTree, allowed: &Vec<String>, j: usize) -> (r: Option<Vec<char>>)
    requires
        tree_wf(tree.nodes@),
        j < tree.nodes@.len(),
    ensures
        guest(tree.nodes@, names_view(allowed@), j as int) <==> r is Some,
        r matches Some(v) ==> string_content(tree.nodes@, j as int) == Some(v@),
{
    if !tree.kind_is(j, "string") || is_carved_out(tree, j) {
        return None;
    }
    match string_content_of(tree, j) {
        Some(lit) => {
            if is_mystery_guest(&lit) && !is_allowed(allowed, &lit) {
                Some(lit)
            } else {
                None
            }
        },
        None => None,
    }
}

/// The message for literal content `lit`.
fn guest_message_of(lit: &Vec<char>) -> (r: String)
    ensures
        r@ == "test contains hardcoded external resource: "@ + str_debug(truncated(lit@, MESSAGE_LITERAL_MAX as nat)),
{
    let shown = if lit.len() <= MESSAGE_LITERAL_MAX {
        slice_chars(lit, 0, lit.len())
    } else {
        let mut v = slice_chars(lit, 0, MESSAGE_LITERAL_MAX);
        push_str(&mut v, "...");
        v
    };
    assert(shown@ =~= truncated(lit@, MESSAGE_LITERAL_MAX as nat));
    let d = debug_string(string_of(&shown).as_str());
    let mut msg: Vec<char> = Vec::new();
    push_str(&mut msg, "test contains hardcoded external resource: ");
    push_all(&mut msg, &str_chars(d.as_str()));
    string_of(&msg)
}

/// Pushes the `ZR005` findings of test `t`.
fn check_test(ctx: &Context, t: usize, out: &mut Vec<Finding>)
    requires
        ctx.wf(),
        t < ctx.tree.nodes@.len(),
    ensures
        emitted(
            old(out)@,
            final(out)@,
            "ZR005"@,
            ctx.file@,
            ctx.tree.nodes@,
            guest_for(ctx.tree.nodes@, names_view(ctx.config.zr005.allowed_prefixes@), t as int),
        ),
{
    reveal(guest_for);
    let ghost ns = ctx.tree.nodes@;
    let allowed = &ctx.config.zr005.allowed_prefixes;
    let ghost av = names_view(allowed@);
    let b = match ctx.tree.child_by_field(t, "body") {
        Some(b) => b,
        None => {
            proof {
                assert(guest_for(ns, av, t as int) =~= Seq::empty());
            }
            return;
        },
    };
    let ghost pr = |j: int| guest(ns, av, j);
    let ghost mf = |j: usize| (j, guest_message(ns, j as int));
    let end = ctx.tree.nodes[b].end;
    assert(end_at(depths(ns), b as int, end as int));
    let mut j = b;
    proof {
        assert(pick(b as int, b as int, pr).map_values(mf) =~= Seq::empty());
    }
    while j < end
        invariant
            ns == ctx.tree.nodes@,
            ctx.wf(),
            b <= j <= end <= ns.len(),
            end == ns[b as int].end,
            allowed == &ctx.config.zr005.allowed_prefixes,
            av == names_view(allowed@),
            pr == (|j: int| guest(ns, av, j)),
            mf == (|j: usize| (j, guest_message(ns, j as int))),
            emitted(old(out)@, out@, "ZR005"@, ctx.file@, ns, pick(b as int, j as int, pr).map_values(mf)),
        decreases end - j,
    {
        match guest_literal(ctx.tree, allowed, j) {
            Some(lit) => {
                let msg = guest_message_of(&lit);
                let fd = finding_for(ctx.tree, j, "ZR005", msg, ctx.file);
                proof {
                    let prev = pick(b as int, j as int, pr).map_values(mf);
                    assert(msg@ == guest_message(ns, j as int));
                    lemma_emitted_push(old(out)@, out@, "ZR005"@, ctx.file@, ns, prev, fd, mf(j));
                    assert(prev.push(mf(j)) =~= pick(b as int, j + 1, pr).map_values(mf));
                }
                out.push(fd);
            },
            None => {
                proof {
                    assert(pick(b as int, j + 1, pr) == pick(b as int, j as int, pr));
                }
            },
        }
        j = j + 1;
    }
}

/// `ZR005 mystery-guest`.
pub struct MysteryGuestRule;

impl MysteryGuestRule {
    pub fn code(&self) -> (r: &'static str)
        ensures
            r@ == "ZR005"@,
    {
        "ZR005"
    }

    pub fn name(&self) -> (r: &'static str)
        ensures
            r@ == "mystery-guest"@,
    {
        "mystery-guest"
    }

    /// Pushes one finding per mystery-guest literal in a test body, at the literal.
    pub fn check(&self, ctx: &Context, out: &mut Vec<Finding>)
        requires
            ctx.wf(),
        ensures
            emitted(
                old(out)@,
                final(out)@,
                "ZR005"@,
                ctx.file@,
                ctx.tree.nodes@,
                guest_findings(ctx.tree.nodes@, names_view(ctx.config.zr005.allowed_prefixes@)),
            ),
    {
        let ghost ns = ctx.tree.nodes@;
        let ghost av = names_view(ctx.config.zr005.allowed_prefixes@);
        let ghost f = |t: int| guest_for(ns, av, t);
        let tests = iter_test_functions(ctx.tree);
        let ghost ts = tests@;
        let mut k: usize = 0;
        proof {
            assert(ts.take(0) =~= Seq::<usize>::empty());
            lemma_test_fns_in(ns);
        }
        while k < tests.len()
            invariant
                ns == ctx.tree.nodes@,
                ctx.wf(),
                ts == tests@,
                forall|i: int| 0 <= i < ts.len() ==> (#[trigger] ts[i]) < ns.len(),
                av == names_view(ctx.config.zr005.allowed_prefixes@),
                f == (|t: int| guest_for(ns, av, t)),
                k <= ts.len(),
                emitted(old(out)@, out@, "ZR005"@, ctx.file@, ns, over_tests(ts.take(k as int), f)),
            decreases tests.len() - k,
        {
            let t = tests[k];
            let ghost mid = out@;
            check_test(ctx, t, out);
            proof {
                lemma_over_tests_step(ts, f, k as int);
                lemma_emitted_trans(
                    old(out)@,
                    mid,
                    out@,
                    "ZR005"@,
                    ctx.file@,
                    ns,
                    over_tests(ts.take(k as int), f),
                    guest_for(ns, av, t as int),
                );
            }
            k = k + 1;
        }
        proof {
            lemma_over_tests_all(ts, f);
        }
    }
}

} // verus!
