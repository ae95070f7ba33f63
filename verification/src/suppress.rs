//! Suppression comments: `# zorilla: ignore`, `# zorilla: ignore[ZR001,...]`,
//! `# zorilla: ignore-file` and `# zorilla: ignore-file[...]`.
//!
//! Each source line is scanned for its first `#`; text after it that starts with
//! `zorilla:` is a directive. Codes are matched case-insensitively. A line directive
//! covers findings on its own line, widened (by [`Suppressions::from_tree`]) to every
//! line of the bracketed statement it sits in.
use vstd::prelude::*;
use crate::text::{
    first_index_of, is_ws, lines, lines_of, split_on, starts_with, trim, trim_range, trim_start,
};
use crate::tree::{positions_fit, tree_wf, SyntaxNode, SyntaxTree};

verus! {

/// ASCII upper case of one character (`char::to_ascii_uppercase`).
pub open spec fn upper_char(c: char) -> char {
    if 'a' <= c && c <= 'z' {
        ((c as u32) - 32) as char
    } else {
        c
    }
}

/// `str::to_ascii_uppercase`.
pub open spec fn upper(s: Seq<char>) -> Seq<char> {
    s.map_values(|c: char| upper_char(c))
}

/// Exec `to_ascii_uppercase` of `s[lo..hi]`.
pub fn upper_range(s: &[char], lo: usize, hi: usize) -> (r: Vec<char>)
    requires
        lo <= hi <= s@.len(),
    ensures
        r@ == upper(s@.subrange(lo as int, hi as int)),
{
    let mut out: Vec<char> = Vec::new();
    let mut i: usize = lo;
    while i < hi
        invariant
            lo <= i <= hi <= s@.len(),
            out@ == upper(s@.subrange(lo as int, i as int)),
        decreases hi - i,
    {
        let c = s[i];
        let u = if 'a' <= c && c <= 'z' {
            ((c as u8) - 32) as char
        } else {
            c
        };
        out.push(u);
        i = i + 1;
        assert(out@ =~= upper(s@.subrange(lo as int, i as int)));
    }
    out
}

/// The set of views of `v`.
pub open spec fn code_set(v: Seq<Vec<char>>) -> Set<Seq<char>> {
    Set::new(|c: Seq<char>| exists|i: int| 0 <= i < v.len() && #[trigger] v[i]@ == c)
}

/// The codes of a comma-separated list: each piece trimmed, empty pieces dropped,
/// upper-cased.
pub open spec fn code_list(inside: Seq<char>) -> Set<Seq<char>> {
    let ps = split_on(inside, ',');
    Set::new(
        |c: Seq<char>|
            exists|i: int| 0 <= i < ps.len() && trim(#[trigger] ps[i]).len() > 0 && c == upper(trim(ps[i]))
    )
}

/// Exec form of [`code_list`] on `s[lo..hi]`.
pub fn parse_code_list(s: &[char], lo: usize, hi: usize) -> (r: Vec<Vec<char>>)
    requires
        lo <= hi <= s@.len(),
    ensures
        code_set(r@) == code_list(s@.subrange(lo as int, hi as int)),
{
    let inside = crate::text::slice_chars(s, lo, hi);
    let pieces = crate::text::split_chars(&inside, ',');
    let ghost ps = split_on(inside@, ',');
    let mut out: Vec<Vec<char>> = Vec::new();
    let mut k: usize = 0;
    while k < pieces.len()
        invariant
            pieces@.len() == ps.len(),
            ps == split_on(inside@, ','),
            forall|i: int| 0 <= i < pieces@.len() ==> #[trigger] pieces@[i]@ == ps[i],
            0 <= k <= pieces@.len(),
            forall|c: Seq<char>| code_set(out@).contains(c) <==> exists|i: int| 0 <= i < k && trim(#[trigger] ps[i]).len() > 0 && c == upper(trim(ps[i])),
        decreases pieces.len() - k,
    {
        let piece = &pieces[k];
        let (a, b) = trim_range(piece, 0, piece.len());
        proof {
            assert(piece@.subrange(0, piece@.len() as int) =~= piece@);
        }
        if a < b {
            let code = upper_range(piece, a, b);
            let ghost old_out = out@;
            out.push(code);
            proof {
                assert forall|c: Seq<char>| code_set(out@).contains(c) <==> exists|i: int| 0 <= i < k + 1 && trim(#[trigger] ps[i]).len() > 0 && c == upper(trim(ps[i])) by {
                    if code_set(out@).contains(c) {
                        let i = choose|i: int| 0 <= i < out@.len() && #[trigger] out@[i]@ == c;
                        if i < old_out.len() {
                            assert(old_out[i]@ == c);
                            assert(code_set(old_out).contains(c));
                        }
                    }
                    if exists|i: int| 0 <= i < k + 1 && trim(#[trigger] ps[i]).len() > 0 && c == upper(trim(ps[i])) {
                        let i = choose|i: int| 0 <= i < k + 1 && trim(#[trigger] ps[i]).len() > 0 && c == upper(trim(ps[i]));
                        if i < k {
                            assert(code_set(old_out).contains(c));
                            let m = choose|m: int| 0 <= m < old_out.len() && #[trigger] old_out[m]@ == c;
                            assert(out@[m] == old_out[m]);
                        } else {
                            assert(out@[old_out.len() as int]@ == c);
                        }
                    }
                }
            }
        } else {
            proof {
                assert forall|c: Seq<char>| code_set(out@).contains(c) <==> exists|i: int| 0 <= i < k + 1 && trim(#[trigger] ps[i]).len() > 0 && c == upper(trim(ps[i])) by {
                    if exists|i: int| 0 <= i < k + 1 && trim(#[trigger] ps[i]).len() > 0 && c == upper(trim(ps[i])) {
                        let i = choose|i: int| 0 <= i < k + 1 && trim(#[trigger] ps[i]).len() > 0 && c == upper(trim(ps[i]));
                        assert(i < k);
                    }
                }
            }
        }
        k = k + 1;
    }
    proof {
        assert(code_set(out@) =~= code_list(s@.subrange(lo as int, hi as int)));
    }
    out
}

/// A line-scope suppression: every code, or the listed (upper-cased) codes.
#[derive(Debug)]
pub enum LineSuppression {
    All,
    Codes(Vec<Vec<char>>),
}

/// A file-scope suppression.
#[derive(Debug)]
pub enum FileLevel {
    /// No file-level directive was seen.
    Unset,
    /// `# zorilla: ignore-file`.
    All,
    /// `# zorilla: ignore-file[...]`.
    Codes(Vec<Vec<char>>),
}

/// A recognised directive.
pub enum ParsedDirective {
    Line(LineSuppression),
    File(FileLevel),
}

/// What a line suppression silences: `None` for every code, else the code set.
pub open spec fn line_model(l: LineSuppression) -> Option<Set<Seq<char>>> {
    match l {
        LineSuppression::All => None,
        LineSuppression::Codes(v) => Some(code_set(v@)),
    }
}

/// A directive's meaning: scope (`true` for the file) and codes (`None` = all).
pub type DirectiveModel = (bool, Option<Set<Seq<char>>>);

/// What follows a directive keyword: an optional bracket list after whitespace, or
/// nothing / whitespace for every code; anything else is not a directive.
pub open spec fn directive_tail(tail: Seq<char>) -> Option<Option<Set<Seq<char>>>> {
    let ak = trim_start(tail);
    if ak.len() > 0 && ak[0] == '[' {
        let ab = ak.skip(1);
        if !ab.contains(']') {
            None
        } else {
            let codes = code_list(ab.take(first_index_of(ab, ']')));
            if codes.is_empty() {
                None
            } else {
                Some(Some(codes))
            }
        }
    } else if tail.len() == 0 || is_ws(tail[0]) {
        Some(None)
    } else {
        None
    }
}

/// Meaning of the text after `zorilla:` (trimmed): `ignore-file...` is file scope,
/// `ignore...` line scope, anything else nothing.
pub open spec fn parse_directive_spec(d: Seq<char>) -> Option<DirectiveModel> {
    if starts_with(d, "ignore-file"@) {
        match directive_tail(d.skip(11)) {
            None => None,
            Some(c) => Some((true, c)),
        }
    } else if starts_with(d, "ignore"@) {
        match directive_tail(d.skip(6)) {
            None => None,
            Some(c) => Some((false, c)),
        }
    } else {
        None
    }
}

pub open spec fn directive_model(p: ParsedDirective) -> DirectiveModel {
    match p {
        ParsedDirective::Line(l) => (false, line_model(l)),
        ParsedDirective::File(FileLevel::All) => (true, None),
        ParsedDirective::File(FileLevel::Codes(v)) => (true, Some(code_set(v@))),
        ParsedDirective::File(FileLevel::Unset) => (true, Some(Set::empty())),
    }
}

/// Exec form of [`directive_tail`] on `s[lo..hi]`.
fn parse_tail(s: &[char], lo: usize, hi: usize) -> (r: Option<Option<Vec<Vec<char>>>>)
    requires
        lo <= hi <= s@.len(),
    ensures
        match directive_tail(s@.subrange(lo as int, hi as int)) {
            None => r is None,
            Some(None) => r matches Some(None),
            Some(Some(c)) => r matches Some(Some(v)) && code_set(v@) == c,
        },
{
    let ghost tail = s@.subrange(lo as int, hi as int);
    let (a, _b) = trim_range(s, lo, hi);
    let ghost ak = trim_start(tail);
    assert(ak == s@.subrange(a as int, hi as int));
    if a < hi && s[a] == '[' {
        proof {
            assert(ak[0] == s@[a as int]);
            assert(ak.skip(1) =~= s@.subrange(a + 1, hi as int));
        }
        let ghost ab = ak.skip(1);
        let close = crate::text::find_char_from(s, ']', a + 1);
        match close {
            Some(c) if c < hi => {
                proof {
                    assert(ab[c - a - 1] == ']');
                    assert forall|j: int| 0 <= j < c - a - 1 implies ab[j] != ']' by {
                        assert(ab[j] == s@[a + 1 + j]);
                    }
                    crate::text::lemma_first_index_of(ab, ']', c - a - 1);
                    assert(ab.contains(']'));
                    assert(ab.take(c - a - 1) =~= s@.subrange(a + 1, c as int));
                }
                let codes = parse_code_list(s, a + 1, c);
                if codes.len() == 0 {
                    proof {
                        assert(code_set(codes@) =~= Set::<Seq<char>>::empty());
                    }
                    return None;
                }
                proof {
                    assert(code_set(codes@).contains(codes@[0]@));
                }
                Some(Some(codes))
            },
            _ => {
                proof {
                    assert forall|j: int| 0 <= j < ab.len() implies ab[j] != ']' by {
                        assert(ab[j] == s@[a + 1 + j]);
                    }
                }
                None
            },
        }
    } else {
        proof {
            if a < hi {
                assert(ak[0] == s@[a as int]);
            }
            if tail.len() > 0 {
                assert(tail[0] == s@[lo as int]);
            }
        }
        if lo == hi || crate::text::char_is_ws(s[lo]) {
            Some(None)
        } else {
            None
        }
    }
}

/// Decodes the text after the `zorilla:` token (see [`parse_directive_spec`]).
pub fn parse_directive(s: &[char], lo: usize, hi: usize) -> (r: Option<ParsedDirective>)
    requires
        lo <= hi <= s@.len(),
    ensures
        match parse_directive_spec(s@.subrange(lo as int, hi as int)) {
            None => r is None,
            Some(m) => r matches Some(p) && directive_model(p) == m,
        },
{
    let ghost d = s@.subrange(lo as int, hi as int);
    if crate::text::range_starts_with_str(s, lo, hi, "ignore-file") {
        proof {
            crate::text::lemma_literal_len_ignore_file();
            assert(d.skip(11) =~= s@.subrange(lo + 11, hi as int));
        }
        match parse_tail(s, lo + 11, hi) {
            None => None,
            Some(None) => Some(ParsedDirective::File(FileLevel::All)),
            Some(Some(v)) => Some(ParsedDirective::File(FileLevel::Codes(v))),
        }
    } else if crate::text::range_starts_with_str(s, lo, hi, "ignore") {
        proof {
            crate::text::lemma_literal_len_ignore();
            assert(d.skip(6) =~= s@.subrange(lo + 6, hi as int));
        }
        match parse_tail(s, lo + 6, hi) {
            None => None,
            Some(None) => Some(ParsedDirective::Line(LineSuppression::All)),
            Some(Some(v)) => Some(ParsedDirective::Line(LineSuppression::Codes(v))),
        }
    } else {
        None
    }
}


proof fn lemma_code_set_same(a: Seq<Vec<char>>, b: Seq<Vec<char>>)
    requires
        a.len() == b.len(),
        forall|i: int| 0 <= i < a.len() ==> #[trigger] a[i]@ == b[i]@,
    ensures
        code_set(a) == code_set(b),
{
    assert forall|c: Seq<char>| code_set(a).contains(c) <==> code_set(b).contains(c) by {
        if code_set(a).contains(c) {
            let i = choose|i: int| 0 <= i < a.len() && #[trigger] a[i]@ == c;
            assert(b[i]@ == c);
        }
        if code_set(b).contains(c) {
            let i = choose|i: int| 0 <= i < b.len() && #[trigger] b[i]@ == c;
            assert(a[i]@ == c);
        }
    }
    assert(code_set(a) =~= code_set(b));
}

/// A copy of a list of codes.
fn copy_codes(v: &Vec<Vec<char>>) -> (r: Vec<Vec<char>>)
    ensures
        r@.len() == v@.len(),
        forall|i: int| 0 <= i < v@.len() ==> #[trigger] r@[i]@ == v@[i]@,
{
    let mut out: Vec<Vec<char>> = Vec::new();
    let mut i: usize = 0;
    while i < v.len()
        invariant
            0 <= i <= v@.len(),
            out@.len() == i,
            forall|j: int| 0 <= j < i ==> #[trigger] out@[j]@ == v@[j]@,
        decreases v.len() - i,
    {
        let c = crate::text::slice_chars(&v[i], 0, v[i].len());
        proof {
            assert(v@[i as int]@.subrange(0, v@[i as int]@.len() as int) =~= v@[i as int]@);
        }
        out.push(c);
        i = i + 1;
    }
    out
}

/// `a` followed by every code of `b`: the union of the two code sets.
fn union_codes(a: Vec<Vec<char>>, b: &Vec<Vec<char>>) -> (r: Vec<Vec<char>>)
    ensures
        code_set(r@) == code_set(a@).union(code_set(b@)),
{
    let mut out = a;
    let ghost a0 = out@;
    let extra = copy_codes(b);
    let mut i: usize = 0;
    while i < extra.len()
        invariant
            0 <= i <= extra@.len(),
            extra@.len() == b@.len(),
            forall|j: int| 0 <= j < b@.len() ==> #[trigger] extra@[j]@ == b@[j]@,
            out@.len() == a0.len() + i,
            forall|j: int| 0 <= j < a0.len() ==> #[trigger] out@[j] == a0[j],
            forall|j: int| 0 <= j < i ==> #[trigger] out@[a0.len() + j]@ == b@[j]@,
        decreases extra.len() - i,
    {
        let c = crate::text::slice_chars(&extra[i], 0, extra[i].len());
        proof {
            assert(extra@[i as int]@.subrange(0, extra@[i as int]@.len() as int) =~= extra@[i as int]@);
        }
        out.push(c);
        i = i + 1;
    }
    proof {
        assert forall|c: Seq<char>| code_set(out@).contains(c) <==> code_set(a0).union(code_set(b@)).contains(c) by {
            if code_set(out@).contains(c) {
                let j = choose|j: int| 0 <= j < out@.len() && #[trigger] out@[j]@ == c;
                if j < a0.len() {
                    assert(a0[j]@ == c);
                } else {
                    let k = j - a0.len();
                    assert(out@[a0.len() + k]@ == b@[k]@);
                }
            }
            if code_set(a0).contains(c) {
                let j = choose|j: int| 0 <= j < a0.len() && #[trigger] a0[j]@ == c;
                assert(out@[j]@ == c);
            }
            if code_set(b@).contains(c) {
                let j = choose|j: int| 0 <= j < b@.len() && #[trigger] b@[j]@ == c;
                assert(out@[a0.len() + j]@ == c);
            }
        }
        assert(code_set(out@) =~= code_set(a0).union(code_set(b@)));
    }
    out
}

/// Combination of two suppressions on one scope: "every code" dominates, otherwise
/// the code sets unite.
pub open spec fn merge_model(a: Option<Set<Seq<char>>>, b: Option<Set<Seq<char>>>) -> Option<
    Set<Seq<char>>,
> {
    match (a, b) {
        (Some(x), Some(y)) => Some(x.union(y)),
        _ => None,
    }
}

/// Whether a suppression (`None` = every code) silences the upper-cased `code`.
pub open spec fn covers(m: Option<Set<Seq<char>>>, code: Seq<char>) -> bool {
    match m {
        None => true,
        Some(s) => s.contains(code),
    }
}

/// A merged suppression silences exactly what either part silences.
pub proof fn lemma_covers_merge(a: Option<Set<Seq<char>>>, b: Option<Set<Seq<char>>>, c: Seq<char>)
    ensures
        covers(merge_model(a, b), c) == (covers(a, c) || covers(b, c)),
{
}

/// What a file-scope suppression silences; `Unset` silences nothing.
pub open spec fn file_model(f: FileLevel) -> Option<Set<Seq<char>>> {
    match f {
        FileLevel::Unset => Some(Set::empty()),
        FileLevel::All => None,
        FileLevel::Codes(v) => Some(code_set(v@)),
    }
}

impl LineSuppression {
    /// Combine two suppressions found on the same source line: `All` dominates,
    /// otherwise the code sets unite.
    pub fn merge(self, other: Self) -> (r: Self)
        ensures
            line_model(r) == merge_model(line_model(self), line_model(other)),
    {
        match (self, other) {
            (LineSuppression::Codes(a), LineSuppression::Codes(b)) => LineSuppression::Codes(
                union_codes(a, &b),
            ),
            _ => LineSuppression::All,
        }
    }

    /// An equal copy.
    pub fn copied(&self) -> (r: Self)
        ensures
            line_model(r) == line_model(*self),
    {
        match self {
            LineSuppression::All => LineSuppression::All,
            LineSuppression::Codes(v) => {
                let c = copy_codes(v);
                proof {
                    lemma_code_set_same(c@, v@);
                }
                LineSuppression::Codes(c)
            },
        }
    }
}

impl FileLevel {
    /// Combine two file-scope directives of one file: `All` dominates, `Unset` is
    /// neutral, otherwise the code sets unite.
    pub fn merge(self, other: Self) -> (r: Self)
        ensures
            file_model(r) == merge_model(file_model(self), file_model(other)),
    {
        match (self, other) {
            (FileLevel::All, _) => FileLevel::All,
            (_, FileLevel::All) => FileLevel::All,
            (FileLevel::Unset, x) => {
                proof {
                    if x is Codes {
                        assert(Set::<Seq<char>>::empty().union(code_set(x->0@)) =~= code_set(x->0@));
                    } else {
                        assert(Set::<Seq<char>>::empty().union(Set::<Seq<char>>::empty()) =~= Set::<Seq<char>>::empty());
                    }
                }
                x
            },
            (x, FileLevel::Unset) => {
                proof {
                    if x is Codes {
                        assert(code_set(x->0@).union(Set::<Seq<char>>::empty()) =~= code_set(x->0@));
                    }
                }
                x
            },
            (FileLevel::Codes(a), FileLevel::Codes(b)) => FileLevel::Codes(union_codes(a, &b)),
        }
    }

    /// Whether this file-scope directive silences `code` (compared upper-cased).
    pub fn suppresses(&self, code: &str) -> (r: bool)
        ensures
            r == covers(file_model(*self), upper(code@)),
    {
        match self {
            FileLevel::Unset => false,
            FileLevel::All => true,
            FileLevel::Codes(v) => contains_upper(v, code),
        }
    }
}

/// Whether `v` holds the upper-cased `code`.
fn contains_upper(v: &Vec<Vec<char>>, code: &str) -> (r: bool)
    ensures
        r == code_set(v@).contains(upper(code@)),
{
    let cs = crate::text::str_chars(code);
    let u = upper_range(&cs, 0, cs.len());
    proof {
        assert(cs@.subrange(0, cs@.len() as int) =~= cs@);
    }
    let mut i: usize = 0;
    while i < v.len()
        invariant
            0 <= i <= v@.len(),
            u@ == upper(code@),
            forall|j: int| 0 <= j < i ==> v@[j]@ != u@,
        decreases v.len() - i,
    {
        if crate::text::chars_eq(&v[i], &u) {
            return true;
        }
        i = i + 1;
    }
    false
}


/// The directive carried by one source line, if any: the text after the line's first
/// `#`, leading whitespace dropped, must start with `zorilla:`; what follows, trimmed,
/// is decoded by [`parse_directive_spec`].
pub open spec fn line_directive(line: Seq<char>) -> Option<DirectiveModel> {
    if !line.contains('#') {
        None
    } else {
        let after = trim_start(line.skip(first_index_of(line, '#') + 1));
        if starts_with(after, "zorilla:"@) {
            parse_directive_spec(trim(after.skip(8)))
        } else {
            None
        }
    }
}

/// File scope of the lines `ls`: every file directive merged in order.
pub open spec fn file_scope_of(ls: Seq<Seq<char>>) -> Option<Set<Seq<char>>>
    decreases ls.len(),
{
    if ls.len() == 0 {
        Some(Set::empty())
    } else {
        let prev = file_scope_of(ls.drop_last());
        match line_directive(ls.last()) {
            Some((true, c)) => merge_model(prev, c),
            _ => prev,
        }
    }
}

/// Line `line` is an `ignore-file` directive that silences `code` (bare, or
/// listing it).
pub open spec fn file_directive_covers(line: Seq<char>, code: Seq<char>) -> bool {
    match line_directive(line) {
        Some((true, m)) => covers(m, code),
        _ => false,
    }
}

/// File-scope directives accumulate: the file scope of `ls` silences `code`
/// exactly when some line of `ls` is an `ignore-file` directive silencing it,
/// whatever other `ignore-file` lines stand before or after that one.
#[verifier::spinoff_prover]
#[verifier::rlimit(80)]
pub proof fn law_file_directives_accumulate(ls: Seq<Seq<char>>, code: Seq<char>)
    ensures
        covers(file_scope_of(ls), code) <==> exists|i: int|
            0 <= i < ls.len() && #[trigger] file_directive_covers(ls[i], code),
    decreases ls.len(),
{
    if ls.len() > 0 {
        let pre = ls.drop_last();
        let n = ls.len() - 1;
        law_file_directives_accumulate(pre, code);
        assert(ls.last() == ls[n]);
        assert(covers(file_scope_of(ls), code) <==> (covers(file_scope_of(pre), code)
            || file_directive_covers(ls[n], code))) by {
            match line_directive(ls[n]) {
                Some((true, c)) => lemma_covers_merge(file_scope_of(pre), c, code),
                _ => {},
            }
        }
        if exists|i: int| 0 <= i < ls.len() && #[trigger] file_directive_covers(ls[i], code) {
            let i = choose|i: int| 0 <= i < ls.len() && #[trigger] file_directive_covers(ls[i], code);
            if i < n {
                assert(pre[i] == ls[i]);
                assert(file_directive_covers(pre[i], code));
            }
        }
        if exists|i: int| 0 <= i < pre.len() && #[trigger] file_directive_covers(pre[i], code) {
            let i = choose|i: int| 0 <= i < pre.len() && #[trigger] file_directive_covers(pre[i], code);
            assert(pre[i] == ls[i]);
            assert(file_directive_covers(ls[i], code));
        }
        if file_directive_covers(ls[n], code) {
            assert(exists|i: int| 0 <= i < ls.len() && #[trigger] file_directive_covers(ls[i], code));
        }
    }
}

/// The same law read on a whole source file: whatever [`Suppressions::from_source`]
/// gives back silences `code` at file scope exactly when some line of the source
/// is an `ignore-file` directive silencing it.
pub proof fn law_source_file_scope(source: Seq<char>, r: Suppressions, code: Seq<char>)
    requires
        r.file_scope() == file_scope_of(lines(source)),
    ensures
        covers(r.file_scope(), code) <==> exists|i: int|
            0 <= i < lines(source).len() && #[trigger] file_directive_covers(lines(source)[i], code),
{
    law_file_directives_accumulate(lines(source), code);
}

/// The line-scope directive on 1-based line `l` of `ls`, if there is one.
pub open spec fn line_scope_at(ls: Seq<Seq<char>>, l: int) -> Option<Option<Set<Seq<char>>>> {
    if 1 <= l <= ls.len() {
        match line_directive(ls[l - 1]) {
            Some((false, m)) => Some(m),
            _ => None,
        }
    } else {
        None
    }
}

/// A line span `(start, end)` holds `l`.
pub open spec fn in_span(sp: (usize, usize), l: int) -> bool {
    sp.0 <= l <= sp.1
}

proof fn lemma_literal_len_zorilla()
    ensures
        "zorilla:"@.len() == 8,
{
    reveal_strlit("zorilla:");
}

/// Exec form of [`line_directive`].
fn directive_of_line(line: &Vec<char>) -> (r: Option<ParsedDirective>)
    ensures
        match line_directive(line@) {
            None => r is None,
            Some(m) => r matches Some(p) && directive_model(p) == m,
        },
{
    let ghost ln = line@;
    match crate::text::find_char_from(line, '#', 0) {
        None => {
            proof {
                assert(!ln.contains('#'));
            }
            None
        },
        Some(h) => {
            assert(h < ln.len());
            assert(ln.len() == line.len());
            proof {
                crate::text::lemma_first_index_of(ln, '#', h as int);
                assert(ln.skip(h + 1) =~= ln.subrange(h + 1, ln.len() as int));
            }
            let (a, _b) = trim_range(line, h + 1, line.len());
            if crate::text::range_starts_with_str(line, a, line.len(), "zorilla:") {
                proof {
                    lemma_literal_len_zorilla();
                    assert(ln.subrange(a as int, ln.len() as int).skip(8) =~= ln.subrange(
                        a + 8,
                        ln.len() as int,
                    ));
                }
                let (p, q) = trim_range(line, a + 8, line.len());
                parse_directive(line, p, q)
            } else {
                None
            }
        },
    }
}

/// Suppression annotations of one Python source file.
#[derive(Debug)]
pub struct Suppressions {
    file_level: FileLevel,
    /// 1-based source line and the suppression on it.
    per_line: Vec<(usize, LineSuppression)>,
}

impl Suppressions {
    /// What the file-scope directives silence (`None` = every code).
    pub closed spec fn file_scope(&self) -> Option<Set<Seq<char>>> {
        file_model(self.file_level)
    }

    /// Line `l` carries a line-scope suppression.
    pub closed spec fn has_line(&self, l: int) -> bool {
        exists|i: int| 0 <= i < self.per_line@.len() && #[trigger] self.per_line@[i].0 == l
    }

    /// The suppression on line `l` silences the upper-cased code `c`.
    pub closed spec fn line_covers(&self, l: int, c: Seq<char>) -> bool {
        exists|i: int|
            0 <= i < self.per_line@.len() && #[trigger] self.per_line@[i].0 == l && covers(
                line_model(self.per_line@[i].1),
                c,
            )
    }

    /// Some line of span `sp` carries a line suppression.
    pub open spec fn span_has(&self, sp: (usize, usize)) -> bool {
        exists|l: int| in_span(sp, l) && #[trigger] self.has_line(l)
    }

    /// Some line suppression inside span `sp` silences `c`.
    pub open spec fn span_covers(&self, sp: (usize, usize), c: Seq<char>) -> bool {
        exists|l: int| in_span(sp, l) && #[trigger] self.line_covers(l, c)
    }

    /// No annotation at all.
    pub fn empty() -> (r: Self)
        ensures
            r.file_scope() == Some(Set::<Seq<char>>::empty()),
            forall|l: int| !#[trigger] r.has_line(l),
            forall|l: int, c: Seq<char>| !#[trigger] r.line_covers(l, c),
    {
        Suppressions { file_level: FileLevel::Unset, per_line: Vec::new() }
    }

    /// Every `# zorilla:` directive of `source`, strictly per line: the first `#` of
    /// each line starts its comment, unknown directives are ignored.
    #[verifier::rlimit(60)]
    pub fn from_source(source: &str) -> (r: Self)
        ensures
            r.file_scope() == file_scope_of(lines(source@)),
            forall|l: int| #[trigger] r.has_line(l) <==> line_scope_at(lines(source@), l) is Some,
            forall|l: int, c: Seq<char>|
                #[trigger] r.line_covers(l, c) <==> (line_scope_at(lines(source@), l) matches Some(m)
                    && covers(m, c)),
    {
        let chars = crate::text::str_chars(source);
        let ls = lines_of(&chars);
        let ghost big = lines(source@);
        let mut file_level = FileLevel::Unset;
        let mut per: Vec<(usize, LineSuppression)> = Vec::new();
        let mut idx: usize = 0;
        while idx < ls.len()
            invariant
                ls@.len() == big.len(),
                big == lines(source@),
                forall|i: int| 0 <= i < ls@.len() ==> #[trigger] ls@[i]@ == big[i],
                0 <= idx <= ls@.len(),
                file_model(file_level) == file_scope_of(big.take(idx as int)),
                forall|i: int|
                    0 <= i < per@.len() ==> 1 <= (#[trigger] per@[i]).0 <= idx && line_scope_at(
                        big,
                        per@[i].0 as int,
                    ) == Some(line_model(per@[i].1)),
                forall|l: int|
                    1 <= l <= idx && #[trigger] line_scope_at(big, l) is Some ==> exists|i: int|
                        0 <= i < per@.len() && #[trigger] per@[i].0 == l,
            decreases ls.len() - idx,
        {
            let ghost ln = ls@[idx as int]@;
            proof {
                assert(big.take(idx + 1).drop_last() =~= big.take(idx as int));
                assert(big.take(idx + 1).last() == ln);
            }
            let dir = directive_of_line(&ls[idx]);
            proof {
                assert(line_scope_at(big, idx + 1) == match line_directive(ln) {
                    Some((false, m)) => Some(m),
                    _ => None::<Option<Set<Seq<char>>>>,
                });
            }
            match dir {
                Some(ParsedDirective::Line(l)) => {
                    let ghost old_per = per@;
                    per.push((idx + 1, l));
                    proof {
                        assert(per@[old_per.len() as int].0 == idx + 1);
                        assert forall|k: int|
                            1 <= k <= idx + 1 && #[trigger] line_scope_at(big, k) is Some implies exists|i: int|
                                0 <= i < per@.len() && #[trigger] per@[i].0 == k by {
                            if k <= idx {
                                let i = choose|i: int| 0 <= i < old_per.len() && #[trigger] old_per[i].0 == k;
                                assert(per@[i].0 == k);
                            } else {
                                assert(per@[old_per.len() as int].0 == k);
                            }
                        }
                    }
                },
                Some(ParsedDirective::File(f)) => {
                    file_level = file_level.merge(f);
                },
                None => {},
            }
            idx = idx + 1;
        }
        proof {
            assert(big.take(ls@.len() as int) =~= big);
        }
        let r = Suppressions { file_level, per_line: per };
        proof {
            assert forall|l: int| #[trigger] r.has_line(l) <==> line_scope_at(big, l) is Some by {
                if r.has_line(l) {
                    let i = choose|i: int| 0 <= i < r.per_line@.len() && #[trigger] r.per_line@[i].0 == l;
                    assert(line_scope_at(big, r.per_line@[i].0 as int) is Some);
                }
            }
            assert forall|l: int, c: Seq<char>|
                #[trigger] r.line_covers(l, c) <==> (line_scope_at(big, l) matches Some(m) && covers(m, c)) by {
                if r.line_covers(l, c) {
                    let i = choose|i: int|
                        0 <= i < r.per_line@.len() && #[trigger] r.per_line@[i].0 == l && covers(
                            line_model(r.per_line@[i].1),
                            c,
                        );
                    assert(line_scope_at(big, r.per_line@[i].0 as int) == Some(line_model(r.per_line@[i].1)));
                }
                if line_scope_at(big, l) matches Some(m) && covers(m, c) {
                    let i = choose|i: int| 0 <= i < r.per_line@.len() && #[trigger] r.per_line@[i].0 == l;
                    assert(line_scope_at(big, r.per_line@[i].0 as int) == Some(line_model(r.per_line@[i].1)));
                }
            }
        }
        r
    }

    /// Whether `code` is silenced at file scope (compared upper-cased).
    pub fn suppresses_code(&self, code: &str) -> (r: bool)
        ensures
            r == covers(self.file_scope(), upper(code@)),
    {
        self.file_level.suppresses(code)
    }

    /// Whether a finding for `code` reported at `line` is silenced, at file scope or
    /// by the suppression on that line (compared upper-cased).
    pub fn is_suppressed(&self, line: usize, code: &str) -> (r: bool)
        ensures
            r == (covers(self.file_scope(), upper(code@)) || self.line_covers(line as int, upper(code@))),
    {
        if self.file_level.suppresses(code) {
            return true;
        }
        let mut i: usize = 0;
        while i < self.per_line.len()
            invariant
                0 <= i <= self.per_line@.len(),
                forall|j: int|
                    0 <= j < i ==> !(#[trigger] self.per_line@[j].0 == line && covers(
                        line_model(self.per_line@[j].1),
                        upper(code@),
                    )),
            decreases self.per_line.len() - i,
        {
            if self.per_line[i].0 == line && line_suppresses(&self.per_line[i].1, code) {
                return true;
            }
            i = i + 1;
        }
        false
    }

    /// Adds `incoming` to the suppression of `line`, merging with one already there.
    pub fn merge_into(&mut self, line: usize, incoming: LineSuppression)
        ensures
            final(self).file_scope() == old(self).file_scope(),
            forall|l: int| #[trigger] final(self).has_line(l) <==> (old(self).has_line(l) || l == line),
            forall|l: int, c: Seq<char>|
                #[trigger] final(self).line_covers(l, c) <==> (old(self).line_covers(l, c) || (l == line
                    && covers(line_model(incoming), c))),
    {
        let ghost old_per = self.per_line@;
        let mut i: usize = 0;
        while i < self.per_line.len()
            invariant
                self.per_line@ == old_per,
                old_per == old(self).per_line@,
                self.file_level == old(self).file_level,
                0 <= i <= old_per.len(),
                forall|j: int| 0 <= j < i ==> (#[trigger] old_per[j]).0 != line,
            decreases self.per_line.len() - i,
        {
            if self.per_line[i].0 == line {
                let m = self.per_line[i].1.copied().merge(incoming);
                self.per_line[i] = (line, m);
                proof {
                    let np = self.per_line@;
                    assert(np == old_per.update(i as int, (line, m)));
                    assert forall|l: int| #[trigger] self.has_line(l) <==> (exists|j: int|
                        0 <= j < old_per.len() && #[trigger] old_per[j].0 == l) || l == line by {
                        if exists|j: int| 0 <= j < old_per.len() && #[trigger] old_per[j].0 == l {
                            let j = choose|j: int| 0 <= j < old_per.len() && #[trigger] old_per[j].0 == l;
                            if j == i {
                                assert(np[i as int].0 == l);
                            } else {
                                assert(np[j].0 == l);
                            }
                        }
                        if l == line {
                            assert(np[i as int].0 == l);
                            assert(self.has_line(l));
                        }
                        if self.has_line(l) {
                            let j = choose|j: int| 0 <= j < np.len() && #[trigger] np[j].0 == l;
                            if j != i {
                                assert(old_per[j].0 == l);
                            }
                        }
                    }
                    assert forall|l: int, c: Seq<char>|
                        #[trigger] self.line_covers(l, c) <==> ((exists|j: int|
                            0 <= j < old_per.len() && #[trigger] old_per[j].0 == l && covers(
                                line_model(old_per[j].1),
                                c,
                            )) || (l == line && covers(line_model(incoming), c))) by {
                        if exists|j: int|
                            0 <= j < old_per.len() && #[trigger] old_per[j].0 == l && covers(
                                line_model(old_per[j].1),
                                c,
                            ) {
                            let j = choose|j: int|
                                0 <= j < old_per.len() && #[trigger] old_per[j].0 == l && covers(
                                    line_model(old_per[j].1),
                                    c,
                                );
                            if j == i {
                                assert(np[i as int].0 == l);
                            } else {
                                assert(np[j].0 == l);
                            }
                        }
                        if l == line && covers(line_model(incoming), c) {
                            assert(np[i as int].0 == l);
                        }
                        if self.line_covers(l, c) {
                            let j = choose|j: int|
                                0 <= j < np.len() && #[trigger] np[j].0 == l && covers(
                                    line_model(np[j].1),
                                    c,
                                );
                            if j != i {
                                assert(old_per[j].0 == l);
                            } else {
                                assert(old_per[i as int].0 == l);
                            }
                        }
                    }
                }
                return ;
            }
            i = i + 1;
        }
        self.per_line.push((line, incoming));
        proof {
            let np = self.per_line@;
            let n = old_per.len() as int;
            assert(np[n].0 == line);
            assert forall|l: int| #[trigger] self.has_line(l) <==> (exists|j: int|
                0 <= j < old_per.len() && #[trigger] old_per[j].0 == l) || l == line by {
                if exists|j: int| 0 <= j < old_per.len() && #[trigger] old_per[j].0 == l {
                    let j = choose|j: int| 0 <= j < old_per.len() && #[trigger] old_per[j].0 == l;
                    assert(np[j].0 == l);
                }
                if self.has_line(l) {
                    let j = choose|j: int| 0 <= j < np.len() && #[trigger] np[j].0 == l;
                    if j < n {
                        assert(old_per[j].0 == l);
                    }
                }
            }
            assert forall|l: int, c: Seq<char>|
                #[trigger] self.line_covers(l, c) <==> ((exists|j: int|
                    0 <= j < old_per.len() && #[trigger] old_per[j].0 == l && covers(
                        line_model(old_per[j].1),
                        c,
                    )) || (l == line && covers(line_model(incoming), c))) by {
                if exists|j: int|
                    0 <= j < old_per.len() && #[trigger] old_per[j].0 == l && covers(
                        line_model(old_per[j].1),
                        c,
                    ) {
                    let j = choose|j: int|
                        0 <= j < old_per.len() && #[trigger] old_per[j].0 == l && covers(
                            line_model(old_per[j].1),
                            c,
                        );
                    assert(np[j].0 == l);
                }
                if self.line_covers(l, c) {
                    let j = choose|j: int|
                        0 <= j < np.len() && #[trigger] np[j].0 == l && covers(line_model(np[j].1), c);
                    if j < n {
                        assert(old_per[j].0 == l);
                    }
                }
            }
        }
    }
}

/// Whether a line suppression silences `code` (compared upper-cased).
fn line_suppresses(l: &LineSuppression, code: &str) -> (r: bool)
    ensures
        r == covers(line_model(*l), upper(code@)),
{
    match l {
        LineSuppression::All => true,
        LineSuppression::Codes(v) => contains_upper(v, code),
    }
}


impl FileLevel {
    /// An equal copy.
    pub fn copied(&self) -> (r: Self)
        ensures
            file_model(r) == file_model(*self),
    {
        match self {
            FileLevel::Unset => FileLevel::Unset,
            FileLevel::All => FileLevel::All,
            FileLevel::Codes(v) => {
                let c = copy_codes(v);
                proof {
                    lemma_code_set_same(c@, v@);
                }
                FileLevel::Codes(c)
            },
        }
    }
}

impl Suppressions {
    /// Every line suppression, as `(line, suppression)` pairs.
    pub fn line_suppressions(&self) -> (r: Vec<(usize, LineSuppression)>)
        ensures
            forall|l: int|
                #[trigger] self.has_line(l) <==> exists|i: int| 0 <= i < r@.len() && #[trigger] r@[i].0 == l,
            forall|l: int, c: Seq<char>|
                #[trigger] self.line_covers(l, c) <==> exists|i: int|
                    0 <= i < r@.len() && #[trigger] r@[i].0 == l && covers(line_model(r@[i].1), c),
    {
        let mut out: Vec<(usize, LineSuppression)> = Vec::new();
        let mut i: usize = 0;
        while i < self.per_line.len()
            invariant
                0 <= i <= self.per_line@.len(),
                out@.len() == i,
                forall|j: int|
                    0 <= j < i ==> (#[trigger] out@[j]).0 == self.per_line@[j].0 && line_model(out@[j].1)
                        == line_model(self.per_line@[j].1),
            decreases self.per_line.len() - i,
        {
            out.push((self.per_line[i].0, self.per_line[i].1.copied()));
            i = i + 1;
        }
        proof {
            assert forall|l: int|
                #[trigger] self.has_line(l) <==> exists|i: int| 0 <= i < out@.len() && #[trigger] out@[i].0 == l by {
                if self.has_line(l) {
                    let j = choose|j: int| 0 <= j < self.per_line@.len() && #[trigger] self.per_line@[j].0 == l;
                    assert(out@[j].0 == l);
                }
                if exists|i: int| 0 <= i < out@.len() && #[trigger] out@[i].0 == l {
                    let j = choose|j: int| 0 <= j < out@.len() && #[trigger] out@[j].0 == l;
                    assert(self.per_line@[j].0 == l);
                }
            }
            assert forall|l: int, c: Seq<char>|
                #[trigger] self.line_covers(l, c) <==> exists|i: int|
                    0 <= i < out@.len() && #[trigger] out@[i].0 == l && covers(line_model(out@[i].1), c) by {
                if self.line_covers(l, c) {
                    let j = choose|j: int|
                        0 <= j < self.per_line@.len() && #[trigger] self.per_line@[j].0 == l && covers(
                            line_model(self.per_line@[j].1),
                            c,
                        );
                    assert(out@[j].0 == l);
                }
                if exists|i: int|
                    0 <= i < out@.len() && #[trigger] out@[i].0 == l && covers(line_model(out@[i].1), c) {
                    let j = choose|j: int|
                        0 <= j < out@.len() && #[trigger] out@[j].0 == l && covers(line_model(out@[j].1), c);
                    assert(self.per_line@[j].0 == l);
                }
            }
        }
        out
    }

    proof fn lemma_covers_has(&self, l: int, c: Seq<char>)
        requires
            self.line_covers(l, c),
        ensures
            self.has_line(l),
    {
        let i = choose|i: int|
            0 <= i < self.per_line@.len() && #[trigger] self.per_line@[i].0 == l && covers(
                line_model(self.per_line@[i].1),
                c,
            );
    }

    /// All line suppressions inside span `(s, e)` merged into one, if there is any.
    fn span_merge(&self, s: usize, e: usize) -> (r: Option<LineSuppression>)
        ensures
            r is None <==> !self.span_has((s, e)),
            r matches Some(m) ==> forall|c: Seq<char>|
                covers(line_model(m), c) <==> #[trigger] self.span_covers((s, e), c),
    {
        let ghost per = self.per_line@;
        let mut merged: Option<LineSuppression> = None;
        let mut j: usize = 0;
        while j < self.per_line.len()
            invariant
                per == self.per_line@,
                0 <= j <= per.len(),
                merged is None <==> forall|k: int| 0 <= k < j ==> !(s <= #[trigger] per[k].0 <= e),
                merged matches Some(m) ==> forall|c: Seq<char>|
                    covers(line_model(m), c) <==> exists|k: int|
                        0 <= k < j && s <= #[trigger] per[k].0 <= e && covers(line_model(per[k].1), c),
            decreases per.len() - j,
        {
            let ln = self.per_line[j].0;
            if s <= ln && ln <= e {
                let cur = self.per_line[j].1.copied();
                let ghost old_m = merged;
                merged = match merged {
                    None => Some(cur),
                    Some(m) => Some(m.merge(cur)),
                };
                proof {
                    let m2 = merged->0;
                    assert(per[j as int].0 == ln);
                    assert forall|c: Seq<char>|
                        covers(line_model(m2), c) <==> exists|k: int|
                            0 <= k < j + 1 && s <= #[trigger] per[k].0 <= e && covers(line_model(per[k].1), c) by {
                        if old_m is Some {
                            lemma_covers_merge(line_model(old_m->0), line_model(cur), c);
                        }
                        if covers(line_model(m2), c) {
                            if old_m is Some && covers(line_model(old_m->0), c) {
                                let k = choose|k: int|
                                    0 <= k < j && s <= #[trigger] per[k].0 <= e && covers(line_model(per[k].1), c);
                                assert(0 <= k < j + 1 && s <= per[k].0 <= e && covers(line_model(per[k].1), c));
                            } else {
                                assert(covers(line_model(per[j as int].1), c));
                            }
                        }
                        if exists|k: int|
                            0 <= k < j + 1 && s <= #[trigger] per[k].0 <= e && covers(line_model(per[k].1), c) {
                            let k = choose|k: int|
                                0 <= k < j + 1 && s <= #[trigger] per[k].0 <= e && covers(line_model(per[k].1), c);
                            if k < j {
                                assert(old_m is Some);
                            }
                        }
                    }
                    assert(s <= per[j as int].0 <= e);
                }
            }
            j = j + 1;
        }
        proof {
            if merged is None {
                assert forall|l: int| in_span((s, e), l) implies !#[trigger] self.has_line(l) by {
                    if self.has_line(l) {
                        let k = choose|k: int| 0 <= k < per.len() && #[trigger] per[k].0 == l;
                    }
                }
            } else {
                let k = choose|k: int| 0 <= k < per.len() && s <= #[trigger] per[k].0 <= e;
                assert(self.has_line(per[k].0 as int));
                assert(in_span((s, e), per[k].0 as int));
                let m = merged->0;
                assert forall|c: Seq<char>|
                    covers(line_model(m), c) <==> #[trigger] self.span_covers((s, e), c) by {
                    if covers(line_model(m), c) {
                        let k = choose|k: int|
                            0 <= k < per.len() && s <= #[trigger] per[k].0 <= e && covers(line_model(per[k].1), c);
                        assert(self.line_covers(per[k].0 as int, c));
                    }
                    if self.span_covers((s, e), c) {
                        let l = choose|l: int| in_span((s, e), l) && #[trigger] self.line_covers(l, c);
                        let k = choose|k: int|
                            0 <= k < per.len() && #[trigger] per[k].0 == l && covers(line_model(per[k].1), c);
                    }
                }
            }
        }
        merged
    }

    /// Adds `m` to the suppression of every line `s..=e`.
    fn cover_span(&mut self, s: usize, e: usize, m: &LineSuppression)
        ensures
            final(self).file_scope() == old(self).file_scope(),
            forall|l: int|
                #[trigger] final(self).has_line(l) <==> (old(self).has_line(l) || in_span((s, e), l)),
            forall|l: int, c: Seq<char>|
                #[trigger] final(self).line_covers(l, c) <==> (old(self).line_covers(l, c) || (in_span(
                    (s, e),
                    l,
                ) && covers(line_model(*m), c))),
    {
        if s > e {
            return ;
        }
        let mut l: usize = s;
        while l < e
            invariant
                s <= l <= e,
                self.file_scope() == old(self).file_scope(),
                forall|x: int| #[trigger] self.has_line(x) <==> (old(self).has_line(x) || (s <= x < l)),
                forall|x: int, c: Seq<char>|
                    #[trigger] self.line_covers(x, c) <==> (old(self).line_covers(x, c) || (s <= x < l
                        && covers(line_model(*m), c))),
            decreases e - l,
        {
            self.merge_into(l, m.copied());
            l = l + 1;
        }
        self.merge_into(e, m.copied());
    }

    /// This set with every line suppression widened to the spans it falls in: each span
    /// that holds a line suppression gets, on all of its lines, every code silenced
    /// anywhere inside it.
    pub fn widened(&self, spans: &Vec<(usize, usize)>) -> (r: Self)
        ensures
            r.file_scope() == self.file_scope(),
            forall|l: int|
                #[trigger] r.has_line(l) <==> (self.has_line(l) || exists|k: int|
                    0 <= k < spans@.len() && in_span(#[trigger] spans@[k], l) && self.span_has(spans@[k])),
            forall|l: int, c: Seq<char>|
                #[trigger] r.line_covers(l, c) <==> (self.line_covers(l, c) || exists|k: int|
                    0 <= k < spans@.len() && in_span(#[trigger] spans@[k], l) && self.span_covers(
                        spans@[k],
                        c,
                    )),
    {
        let copy = self.line_suppressions();
        let ghost cp = copy@;
        let mut out = Suppressions { file_level: self.file_level.copied(), per_line: copy };
        proof {
            assert forall|l: int| #[trigger] out.has_line(l) <==> self.has_line(l) by {
                if out.has_line(l) {
                    let i = choose|i: int| 0 <= i < out.per_line@.len() && #[trigger] out.per_line@[i].0 == l;
                    assert(cp[i].0 == l);
                }
                if self.has_line(l) {
                    let i = choose|i: int| 0 <= i < cp.len() && #[trigger] cp[i].0 == l;
                    assert(out.per_line@[i].0 == l);
                }
            }
            assert forall|l: int, c: Seq<char>| #[trigger] out.line_covers(l, c) <==> self.line_covers(l, c) by {
                if out.line_covers(l, c) {
                    let i = choose|i: int|
                        0 <= i < out.per_line@.len() && #[trigger] out.per_line@[i].0 == l && covers(
                            line_model(out.per_line@[i].1),
                            c,
                        );
                }
            }
        }
        let mut k: usize = 0;
        while k < spans.len()
            invariant
                0 <= k <= spans@.len(),
                out.file_scope() == self.file_scope(),
                forall|l: int|
                    #[trigger] out.has_line(l) <==> (self.has_line(l) || exists|k2: int|
                        0 <= k2 < k && in_span(#[trigger] spans@[k2], l) && self.span_has(spans@[k2])),
                forall|l: int, c: Seq<char>|
                    #[trigger] out.line_covers(l, c) <==> (self.line_covers(l, c) || exists|k2: int|
                        0 <= k2 < k && in_span(#[trigger] spans@[k2], l) && self.span_covers(
                            spans@[k2],
                            c,
                        )),
            decreases spans.len() - k,
        {
            let (s, e) = spans[k];
            let merged = self.span_merge(s, e);
            let ghost before = out;
            match merged {
                None => {},
                Some(m) => {
                    out.cover_span(s, e, &m);
                },
            }
            proof {
                assert(spans@[k as int] == (s, e));
                assert forall|l: int| #[trigger] out.has_line(l) <==> (self.has_line(l) || exists|k2: int|
                    0 <= k2 < k + 1 && in_span(#[trigger] spans@[k2], l) && self.span_has(spans@[k2])) by {
                    if exists|k2: int|
                        0 <= k2 < k + 1 && in_span(#[trigger] spans@[k2], l) && self.span_has(spans@[k2]) {
                        let k2 = choose|k2: int|
                            0 <= k2 < k + 1 && in_span(#[trigger] spans@[k2], l) && self.span_has(spans@[k2]);
                        if k2 < k {
                            assert(before.has_line(l));
                        }
                    }
                    if out.has_line(l) && !before.has_line(l) {
                        assert(in_span(spans@[k as int], l));
                    }
                }
                assert forall|l: int, c: Seq<char>|
                    #[trigger] out.line_covers(l, c) <==> (self.line_covers(l, c) || exists|k2: int|
                        0 <= k2 < k + 1 && in_span(#[trigger] spans@[k2], l) && self.span_covers(
                            spans@[k2],
                            c,
                        )) by {
                    if exists|k2: int|
                        0 <= k2 < k + 1 && in_span(#[trigger] spans@[k2], l) && self.span_covers(
                            spans@[k2],
                            c,
                        ) {
                        let k2 = choose|k2: int|
                            0 <= k2 < k + 1 && in_span(#[trigger] spans@[k2], l) && self.span_covers(
                                spans@[k2],
                                c,
                            );
                        if k2 < k {
                            assert(before.line_covers(l, c));
                        } else {
                            let l2 = choose|l2: int| in_span((s, e), l2) && #[trigger] self.line_covers(l2, c);
                            self.lemma_covers_has(l2, c);
                            assert(self.span_has((s, e)));
                        }
                    }
                    if out.line_covers(l, c) && !before.line_covers(l, c) {
                        assert(in_span(spans@[k as int], l));
                    }
                }
            }
            k = k + 1;
        }
        out
    }
}


/// Some span of `sps` holds line `l`.
pub open spec fn span_cover(sps: Seq<(usize, usize)>, l: int) -> bool {
    exists|k: int| 0 <= k < sps.len() && in_span(#[trigger] sps[k], l)
}

/// Spans in source order: starts never decrease, and no span ends before it starts.
pub open spec fn spans_ordered(sps: Seq<(usize, usize)>) -> bool {
    &&& forall|i: int, j: int| 0 <= i < j < sps.len() ==> sps[i].0 <= sps[j].0
    &&& forall|i: int| 0 <= i < sps.len() ==> (#[trigger] sps[i]).0 <= sps[i].1
}

/// Spans apart: each ends on a line before the next one starts, so no line is in two.
pub open spec fn spans_apart(sps: Seq<(usize, usize)>) -> bool {
    &&& forall|i: int, j: int| 0 <= i < j < sps.len() ==> sps[i].1 < sps[j].0
    &&& forall|i: int| 0 <= i < sps.len() ==> (#[trigger] sps[i]).0 <= sps[i].1
}

/// One merge step: `(s, e)` extends the last span when it starts on or before that
/// span's last line, and is appended otherwise.
pub open spec fn merge_step(out: Seq<(usize, usize)>, sp: (usize, usize)) -> Seq<(usize, usize)> {
    if out.len() > 0 && sp.0 <= out.last().1 {
        out.update(out.len() - 1, (out.last().0, if out.last().1 < sp.1 { sp.1 } else { out.last().1 }))
    } else {
        out.push(sp)
    }
}

/// Spans merged left to right with [`merge_step`].
pub open spec fn merge_fold(sps: Seq<(usize, usize)>) -> Seq<(usize, usize)>
    decreases sps.len(),
{
    if sps.len() == 0 {
        Seq::empty()
    } else {
        merge_step(merge_fold(sps.drop_last()), sps.last())
    }
}

/// Merges spans that overlap or touch on a shared line, left to right.
pub fn merge_spans(spans: Vec<(usize, usize)>) -> (r: Vec<(usize, usize)>)
    ensures
        r@ == merge_fold(spans@),
{
    let ghost inp = spans@;
    let mut out: Vec<(usize, usize)> = Vec::new();
    let mut i: usize = 0;
    while i < spans.len()
        invariant
            inp == spans@,
            0 <= i <= inp.len(),
            out@ == merge_fold(inp.take(i as int)),
        decreases inp.len() - i,
    {
        proof {
            assert(inp.take(i + 1).drop_last() =~= inp.take(i as int));
            assert(inp.take(i + 1).last() == inp[i as int]);
        }
        let (start, end) = spans[i];
        let n = out.len();
        if n > 0 && start <= out[n - 1].1 {
            let last = out[n - 1];
            let hi = if last.1 < end { end } else { last.1 };
            out[n - 1] = (last.0, hi);
        } else {
            out.push((start, end));
        }
        i = i + 1;
    }
    proof {
        assert(inp.take(inp.len() as int) =~= inp);
    }
    out
}

/// Merging spans in source order leaves them apart, each line in at most one, and
/// covers exactly the lines the input spans covered.
pub proof fn lemma_merge_spans(sps: Seq<(usize, usize)>)
    requires
        spans_ordered(sps),
    ensures
        spans_apart(merge_fold(sps)),
        forall|l: int| span_cover(merge_fold(sps), l) <==> span_cover(sps, l),
        sps.len() > 0 ==> merge_fold(sps).len() > 0 && exists|k: int|
            0 <= k < sps.len() && merge_fold(sps).last().0 == #[trigger] sps[k].0,
    decreases sps.len(),
{
    if sps.len() > 0 {
        let pre = sps.drop_last();
        assert(spans_ordered(pre)) by {
            assert forall|i: int, j: int| 0 <= i < j < pre.len() implies pre[i].0 <= pre[j].0 by {
                assert(pre[i] == sps[i] && pre[j] == sps[j]);
            }
            assert forall|i: int| 0 <= i < pre.len() implies (#[trigger] pre[i]).0 <= pre[i].1 by {
                assert(pre[i] == sps[i]);
            }
        }
        lemma_merge_spans(pre);
        let prev = merge_fold(pre);
        let (start, end) = sps.last();
        let out = merge_fold(sps);
        let n = prev.len() as int;
        assert(start <= end) by {
            assert(sps[sps.len() - 1] == sps.last());
        }
        assert forall|x: int| span_cover(sps, x) <==> (span_cover(pre, x) || in_span((start, end), x)) by {
            if span_cover(sps, x) {
                let k = choose|k: int| 0 <= k < sps.len() && in_span(#[trigger] sps[k], x);
                if k < pre.len() {
                    assert(pre[k] == sps[k]);
                }
            }
            if span_cover(pre, x) {
                let k = choose|k: int| 0 <= k < pre.len() && in_span(#[trigger] pre[k], x);
                assert(sps[k] == pre[k]);
            }
            if in_span((start, end), x) {
                assert(in_span(sps[sps.len() - 1], x));
            }
        }
        if n > 0 && start <= prev.last().1 {
            let last = prev.last();
            let hi = if last.1 < end { end } else { last.1 };
            assert(out == prev.update(n - 1, (last.0, hi)));
            let k0 = choose|k: int| 0 <= k < pre.len() && prev.last().0 == #[trigger] pre[k].0;
            assert(pre[k0] == sps[k0]);
            assert(last.0 <= start);
            assert forall|l: int| span_cover(out, l) <==> span_cover(sps, l) by {
                if span_cover(out, l) {
                    let k = choose|k: int| 0 <= k < out.len() && in_span(#[trigger] out[k], l);
                    if k < n - 1 {
                        assert(in_span(prev[k], l));
                    } else if l <= last.1 {
                        assert(in_span(prev[n - 1], l));
                    } else {
                        assert(in_span((start, end), l));
                    }
                }
                if span_cover(sps, l) {
                    if span_cover(pre, l) {
                        let k = choose|k: int| 0 <= k < prev.len() && in_span(#[trigger] prev[k], l);
                        if k < n - 1 {
                            assert(out[k] == prev[k]);
                        } else {
                            assert(in_span(out[n - 1], l));
                        }
                    } else {
                        assert(in_span(out[n - 1], l));
                    }
                }
            }
            assert forall|a: int, b: int| 0 <= a < b < out.len() implies out[a].1 < out[b].0 by {
                assert(prev[a].1 < prev[b].0);
            }
            assert(out.last().0 == sps[k0].0);
        } else {
            assert(out == prev.push((start, end)));
            assert forall|l: int| span_cover(out, l) <==> span_cover(sps, l) by {
                if span_cover(out, l) {
                    let k = choose|k: int| 0 <= k < out.len() && in_span(#[trigger] out[k], l);
                    if k < n {
                        assert(in_span(prev[k], l));
                    }
                }
                if span_cover(sps, l) {
                    if span_cover(pre, l) {
                        let k = choose|k: int| 0 <= k < prev.len() && in_span(#[trigger] prev[k], l);
                        assert(out[k] == prev[k]);
                    } else {
                        assert(in_span(out[n], l));
                    }
                }
            }
            assert forall|a: int, b: int| 0 <= a < b < out.len() implies out[a].1 < out[b].0 by {
                if b < n {
                    assert(prev[a].1 < prev[b].0);
                } else if a < n - 1 {
                    assert(prev[a].1 < prev[n - 1].0);
                }
            }
            assert(out.last().0 == sps[sps.len() - 1].0);
        }
    }
}


/// An opening bracket token.
pub open spec fn is_open_bracket(k: Seq<char>) -> bool {
    k == "("@ || k == "["@ || k == "{"@
}

/// A closing bracket token.
pub open spec fn is_close_bracket(k: Seq<char>) -> bool {
    k == ")"@ || k == "]"@ || k == "}"@
}

/// One leaf token of the bracket walk. The state is the bracket depth, the line of
/// the outermost open bracket, and the spans closed so far. A closing bracket at
/// depth 0 is ignored; one that closes the outermost bracket on a later line than
/// it opened records the span.
pub open spec fn bracket_step(st: (int, int, Seq<(usize, usize)>), k: Seq<char>, line: int) -> (
    int,
    int,
    Seq<(usize, usize)>,
) {
    if is_open_bracket(k) {
        (st.0 + 1, if st.0 == 0 { line } else { st.1 }, st.2)
    } else if is_close_bracket(k) && st.0 > 0 {
        if st.0 == 1 && line > st.1 {
            (0, st.1, st.2.push((st.1 as usize, line as usize)))
        } else {
            (st.0 - 1, st.1, st.2)
        }
    } else {
        st
    }
}

/// The bracket walk from node `i` on, in preorder: the subtree of a `string` node
/// below the root is skipped whole, and every leaf steps the state at its 1-based
/// line.
pub open spec fn bracket_walk(ns: Seq<SyntaxNode>, i: int, st: (int, int, Seq<(usize, usize)>)) -> (
    int,
    int,
    Seq<(usize, usize)>,
)
    decreases ns.len() - i,
{
    if i < 0 || i >= ns.len() {
        st
    } else if i > 0 && ns[i].kind@ == "string"@ {
        let next = if i < ns[i].end && ns[i].end <= ns.len() {
            ns[i].end as int
        } else {
            i + 1
        };
        bracket_walk(ns, next, st)
    } else if ns[i].end == i + 1 {
        bracket_walk(ns, i + 1, bracket_step(st, ns[i].kind@, ns[i].row + 1))
    } else {
        bracket_walk(ns, i + 1, st)
    }
}

/// The line spans of the bracketed statements of a tree: each runs from the line of
/// an outermost opening bracket to the later line of its closing one, and spans
/// that share a line are merged.
pub open spec fn statement_spans(ns: Seq<SyntaxNode>) -> Seq<(usize, usize)> {
    merge_fold(bracket_walk(ns, 0, (0, 0, Seq::empty())).2)
}

/// The raw spans of the bracket walk over `tree`, in walk order.
fn bracket_spans_raw(tree: &SyntaxTree) -> (r: Vec<(usize, usize)>)
    requires
        tree_wf(tree.nodes@),
        positions_fit(tree.nodes@),
    ensures
        r@ == bracket_walk(tree.nodes@, 0, (0, 0, Seq::empty())).2,
{
    let ghost ns = tree.nodes@;
    let n = tree.nodes.len();
    let mut spans: Vec<(usize, usize)> = Vec::new();
    let mut depth: usize = 0;
    let mut open: usize = 0;
    let mut i: usize = 0;
    while i < n
        invariant
            ns == tree.nodes@,
            n == ns.len(),
            tree_wf(ns),
            positions_fit(ns),
            i <= n,
            depth <= i,
            bracket_walk(ns, 0, (0, 0, Seq::empty())) == bracket_walk(
                ns,
                i as int,
                (depth as int, open as int, spans@),
            ),
        decreases n - i,
    {
        let end = tree.nodes[i].end;
        assert(crate::tree::end_at(crate::tree::depths(ns), i as int, end as int));
        if i > 0 && tree.kind_is(i, "string") {
            i = end;
        } else {
            if end == i + 1 {
                let line = tree.nodes[i].row + 1;
                let k = tree.nodes[i].kind;
                if tree.kind_is(i, "(") || tree.kind_is(i, "[") || tree.kind_is(i, "{") {
                    if depth == 0 {
                        open = line;
                    }
                    depth = depth + 1;
                } else if (tree.kind_is(i, ")") || tree.kind_is(i, "]") || tree.kind_is(i, "}")) && depth
                    > 0 {
                    depth = depth - 1;
                    if depth == 0 && line > open {
                        spans.push((open, line));
                    }
                }
            }
            i = i + 1;
        }
    }
    spans
}

impl Suppressions {
    /// Every directive of `source` (as [`Suppressions::from_source`] reads them), with
    /// each line suppression widened to the bracketed multi-line statement it sits
    /// in: every line of a statement span gets every code silenced on any line of it.
    /// File-scope directives are not widened. `tree` is the parse of `source`.
    pub fn from_tree(tree: &SyntaxTree, source: &str) -> (r: Self)
        requires
            tree_wf(tree.nodes@),
            positions_fit(tree.nodes@),
        ensures
            r.file_scope() == file_scope_of(lines(source@)),
            forall|l: int|
                #[trigger] r.has_line(l) <==> widened_has(lines(source@), statement_spans(tree.nodes@), l),
            forall|l: int, c: Seq<char>|
                #[trigger] r.line_covers(l, c) <==> widened_silences(
                    lines(source@),
                    statement_spans(tree.nodes@),
                    l,
                    c,
                ),
    {
        let ghost ls = lines(source@);
        let base = Self::from_source(source);
        let ghost sps = statement_spans(tree.nodes@);
        if base.per_line.len() == 0 {
            proof {
                assert forall|l: int| #[trigger] base.has_line(l) <==> widened_has(ls, sps, l) by {
                    if widened_has(ls, sps, l) {
                        if line_scope_at(ls, l) is None {
                            let (k, l2) = choose|k: int, l2: int|
                                0 <= k < sps.len() && in_span(#[trigger] sps[k], l) && in_span(sps[k], l2)
                                    && #[trigger] line_scope_at(ls, l2) is Some;
                            assert(base.has_line(l2));
                        }
                    }
                }
                assert forall|l: int, c: Seq<char>| #[trigger]
                    base.line_covers(l, c) <==> widened_silences(ls, sps, l, c) by {
                    if widened_silences(ls, sps, l, c) {
                        if !line_silences(ls, l, c) {
                            let (k, l2) = choose|k: int, l2: int|
                                0 <= k < sps.len() && in_span(#[trigger] sps[k], l) && in_span(sps[k], l2)
                                    && #[trigger] line_silences(ls, l2, c);
                            assert(base.line_covers(l2, c));
                        }
                    }
                }
            }
            return base;
        }
        let raw = bracket_spans_raw(tree);
        let spans = merge_spans(raw);
        let r = base.widened(&spans);
        proof {
            assert(spans@ == sps);
            assert forall|sp: (usize, usize)| #[trigger] base.span_has(sp) <==> exists|l2: int|
                in_span(sp, l2) && #[trigger] line_scope_at(ls, l2) is Some by {
                if base.span_has(sp) {
                    let l2 = choose|l2: int| in_span(sp, l2) && #[trigger] base.has_line(l2);
                    assert(line_scope_at(ls, l2) is Some);
                }
                if exists|l2: int| in_span(sp, l2) && #[trigger] line_scope_at(ls, l2) is Some {
                    let l2 = choose|l2: int| in_span(sp, l2) && #[trigger] line_scope_at(ls, l2) is Some;
                    assert(base.has_line(l2));
                }
            }
            assert forall|sp: (usize, usize), c: Seq<char>| #[trigger] base.span_covers(sp, c)
                <==> exists|l2: int| in_span(sp, l2) && #[trigger] line_silences(ls, l2, c) by {
                if base.span_covers(sp, c) {
                    let l2 = choose|l2: int| in_span(sp, l2) && #[trigger] base.line_covers(l2, c);
                    assert(line_silences(ls, l2, c));
                }
                if exists|l2: int| in_span(sp, l2) && #[trigger] line_silences(ls, l2, c) {
                    let l2 = choose|l2: int| in_span(sp, l2) && #[trigger] line_silences(ls, l2, c);
                    assert(base.line_covers(l2, c));
                }
            }
            assert forall|l: int| #[trigger] r.has_line(l) <==> widened_has(ls, sps, l) by {
                if r.has_line(l) && !base.has_line(l) {
                    let k = choose|k: int|
                        0 <= k < spans@.len() && in_span(#[trigger] spans@[k], l) && base.span_has(spans@[k]);
                    assert(base.span_has(sps[k]));
                    let l2 = choose|l2: int| in_span(sps[k], l2) && #[trigger] line_scope_at(ls, l2) is Some;
                    assert(widened_has(ls, sps, l));
                }
                if widened_has(ls, sps, l) && line_scope_at(ls, l) is None {
                    let (k, l2) = choose|k: int, l2: int|
                        0 <= k < sps.len() && in_span(#[trigger] sps[k], l) && in_span(sps[k], l2)
                            && #[trigger] line_scope_at(ls, l2) is Some;
                    assert(base.span_has(spans@[k]));
                }
            }
            assert forall|l: int, c: Seq<char>| #[trigger]
                r.line_covers(l, c) <==> widened_silences(ls, sps, l, c) by {
                if r.line_covers(l, c) && !base.line_covers(l, c) {
                    let k = choose|k: int|
                        0 <= k < spans@.len() && in_span(#[trigger] spans@[k], l) && base.span_covers(
                            spans@[k],
                            c,
                        );
                    assert(base.span_covers(sps[k], c));
                    let l2 = choose|l2: int| in_span(sps[k], l2) && #[trigger] line_silences(ls, l2, c);
                    assert(widened_silences(ls, sps, l, c));
                }
                if widened_silences(ls, sps, l, c) && !line_silences(ls, l, c) {
                    let (k, l2) = choose|k: int, l2: int|
                        0 <= k < sps.len() && in_span(#[trigger] sps[k], l) && in_span(sps[k], l2)
                            && #[trigger] line_silences(ls, l2, c);
                    assert(base.span_covers(spans@[k], c));
                }
            }
        }
        r
    }
}

/// The line-scope directive on line `l` of `ls` silences the upper-cased code `c`.
pub open spec fn line_silences(ls: Seq<Seq<char>>, l: int, c: Seq<char>) -> bool {
    line_scope_at(ls, l) matches Some(m) && covers(m, c)
}

/// Line `l` carries a line suppression once directives are widened to `sps`: its own,
/// or one on another line of a span that holds `l`.
pub open spec fn widened_has(ls: Seq<Seq<char>>, sps: Seq<(usize, usize)>, l: int) -> bool {
    line_scope_at(ls, l) is Some || exists|k: int, l2: int|
        0 <= k < sps.len() && in_span(#[trigger] sps[k], l) && in_span(sps[k], l2)
            && #[trigger] line_scope_at(ls, l2) is Some
}

/// Code `c` is silenced on line `l` once directives are widened to `sps`.
pub open spec fn widened_silences(ls: Seq<Seq<char>>, sps: Seq<(usize, usize)>, l: int, c: Seq<char>) -> bool {
    line_silences(ls, l, c) || exists|k: int, l2: int|
        0 <= k < sps.len() && in_span(#[trigger] sps[k], l) && in_span(sps[k], l2)
            && #[trigger] line_silences(ls, l2, c)
}


/// A file-scope directive silences its codes on every line: whatever line a
/// finding for such a code reports, [`Suppressions::is_suppressed`] says yes.
pub proof fn law_file_scope_silences_every_line(s: Suppressions, code: Seq<char>, line: int)
    requires
        covers(s.file_scope(), upper(code)),
    ensures
        covers(s.file_scope(), upper(code)) || s.line_covers(line, upper(code)),
{
}

/// Codes are matched case-insensitively: two codes that differ only in ASCII
/// case are silenced on exactly the same lines.
pub proof fn law_codes_case_insensitive(s: Suppressions, a: Seq<char>, b: Seq<char>, line: int)
    requires
        upper(a) == upper(b),
    ensures
        (covers(s.file_scope(), upper(a)) || s.line_covers(line, upper(a))) == (covers(s.file_scope(), upper(b))
            || s.line_covers(line, upper(b))),
{
}

/// Widening to statements only adds: a line directive still silences its own
/// line, and a line it did not silence is silenced only when it lies in a
/// statement span holding a line whose directive silences the code.
pub proof fn law_widening_stays_in_statements(ls: Seq<Seq<char>>, sps: Seq<(usize, usize)>, line: int, code: Seq<char>)
    ensures
        line_silences(ls, line, code) ==> widened_silences(ls, sps, line, code),
        widened_silences(ls, sps, line, code) && !line_silences(ls, line, code) ==> exists|k: int, l2: int|
            0 <= k < sps.len() && in_span(#[trigger] sps[k], line) && in_span(sps[k], l2) && #[trigger] line_silences(
                ls,
                l2,
                code,
            ),
{
}

/// A bare `ignore` on a line dominates a listed one: merging two line
/// suppressions silences exactly what either silenced.
pub proof fn law_merge_is_union(a: LineSuppression, b: LineSuppression, code: Seq<char>)
    ensures
        covers(merge_model(line_model(a), line_model(b)), code) == (covers(line_model(a), code) || covers(
            line_model(b),
            code,
        )),
{
    lemma_covers_merge(line_model(a), line_model(b), code);
}

} // verus!
