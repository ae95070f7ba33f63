//! File paths as the reports order and show them: split into components, compared
//! component by component, and shortened against the directory a run started from.
use vstd::prelude::*;
use crate::text::split_on;

verus! {

/// Component kinds in the order paths compare them: the root, `.`, `..`, names.
pub open spec fn piece_kind(p: Seq<char>) -> int {
    if p == seq!['.'] {
        1
    } else if p == seq!['.', '.'] {
        2
    } else {
        3
    }
}

/// Components made of the `/`-separated pieces `ps`: empty pieces vanish, and so
/// does `.` unless it is the first piece of a relative path.
pub open spec fn piece_components(ps: Seq<Seq<char>>, rooted: bool) -> Seq<(int, Seq<char>)>
    decreases ps.len(),
{
    if ps.len() == 0 {
        Seq::empty()
    } else {
        let prev = piece_components(ps.drop_last(), rooted);
        let p = ps.last();
        if p.len() == 0 || (p == seq!['.'] && (ps.len() > 1 || rooted)) {
            prev
        } else {
            prev.push((piece_kind(p), p))
        }
    }
}

/// The components of a Unix path: a root when it starts with `/`, then its pieces.
pub open spec fn path_components(s: Seq<char>) -> Seq<(int, Seq<char>)> {
    let rooted = s.len() > 0 && s[0] == '/';
    let root = if rooted {
        seq![(0int, Seq::<char>::empty())]
    } else {
        Seq::empty()
    };
    root + piece_components(split_on(s, '/'), rooted)
}

/// Lexicographic order of character sequences by code point (the order of `str`).
pub open spec fn chars_less(a: Seq<char>, b: Seq<char>) -> bool
    decreases a.len(),
{
    if a.len() == 0 {
        b.len() > 0
    } else if b.len() == 0 {
        false
    } else if a[0] != b[0] {
        a[0] < b[0]
    } else {
        chars_less(a.drop_first(), b.drop_first())
    }
}

pub open spec fn comp_less(x: (int, Seq<char>), y: (int, Seq<char>)) -> bool {
    x.0 < y.0 || (x.0 == y.0 && chars_less(x.1, y.1))
}

/// Lexicographic order of component sequences.
pub open spec fn comps_less(a: Seq<(int, Seq<char>)>, b: Seq<(int, Seq<char>)>) -> bool
    decreases a.len(),
{
    if a.len() == 0 {
        b.len() > 0
    } else if b.len() == 0 {
        false
    } else if a[0] != b[0] {
        comp_less(a[0], b[0])
    } else {
        comps_less(a.drop_first(), b.drop_first())
    }
}

/// `a` sorts before `b` as paths do: by components.
pub open spec fn path_less(a: Seq<char>, b: Seq<char>) -> bool {
    comps_less(path_components(a), path_components(b))
}

/// `a` and `b` name the same path: equal components.
pub open spec fn path_same(a: Seq<char>, b: Seq<char>) -> bool {
    path_components(a) == path_components(b)
}

pub proof fn lemma_chars_less_irrefl(a: Seq<char>)
    ensures
        !chars_less(a, a),
    decreases a.len(),
{
    if a.len() > 0 {
        lemma_chars_less_irrefl(a.drop_first());
    }
}

pub proof fn lemma_chars_less_trans(a: Seq<char>, b: Seq<char>, c: Seq<char>)
    requires
        chars_less(a, b),
        chars_less(b, c),
    ensures
        chars_less(a, c),
    decreases a.len(),
{
    if a.len() > 0 && b.len() > 0 && c.len() > 0 && a[0] == b[0] && b[0] == c[0] {
        lemma_chars_less_trans(a.drop_first(), b.drop_first(), c.drop_first());
    }
}

pub proof fn lemma_chars_less_total(a: Seq<char>, b: Seq<char>)
    ensures
        a == b || chars_less(a, b) || chars_less(b, a),
    decreases a.len(),
{
    if a.len() > 0 && b.len() > 0 && a[0] == b[0] {
        lemma_chars_less_total(a.drop_first(), b.drop_first());
        if a.drop_first() == b.drop_first() {
            assert(a =~= seq![a[0]] + a.drop_first());
            assert(b =~= seq![b[0]] + b.drop_first());
        }
    } else if a.len() == 0 && b.len() == 0 {
        assert(a =~= b);
    }
}

pub proof fn lemma_comps_less_irrefl(a: Seq<(int, Seq<char>)>)
    ensures
        !comps_less(a, a),
    decreases a.len(),
{
    if a.len() > 0 {
        lemma_comps_less_irrefl(a.drop_first());
    }
}

pub proof fn lemma_comps_less_trans(a: Seq<(int, Seq<char>)>, b: Seq<(int, Seq<char>)>, c: Seq<(int, Seq<char>)>)
    requires
        comps_less(a, b),
        comps_less(b, c),
    ensures
        comps_less(a, c),
    decreases a.len(),
{
    if a.len() > 0 && b.len() > 0 && c.len() > 0 {
        if a[0] == b[0] && b[0] == c[0] {
            lemma_comps_less_trans(a.drop_first(), b.drop_first(), c.drop_first());
        } else if a[0] != b[0] && b[0] != c[0] {
            if a[0].0 == b[0].0 && b[0].0 == c[0].0 {
                lemma_chars_less_trans(a[0].1, b[0].1, c[0].1);
                if a[0] == c[0] {
                    lemma_chars_less_irrefl(a[0].1);
                    lemma_chars_less_trans(a[0].1, b[0].1, a[0].1);
                }
            }
            if a[0] == c[0] {
                if a[0].0 == b[0].0 {
                    lemma_chars_less_trans(a[0].1, b[0].1, a[0].1);
                    lemma_chars_less_irrefl(a[0].1);
                }
            }
        }
    }
}

pub proof fn lemma_comps_less_total(a: Seq<(int, Seq<char>)>, b: Seq<(int, Seq<char>)>)
    ensures
        a == b || comps_less(a, b) || comps_less(b, a),
    decreases a.len(),
{
    if a.len() > 0 && b.len() > 0 {
        if a[0] == b[0] {
            lemma_comps_less_total(a.drop_first(), b.drop_first());
            if a.drop_first() == b.drop_first() {
                assert(a =~= seq![a[0]] + a.drop_first());
                assert(b =~= seq![b[0]] + b.drop_first());
            }
        } else {
            lemma_chars_less_total(a[0].1, b[0].1);
        }
    } else if a.len() == 0 && b.len() == 0 {
        assert(a =~= b);
    }
}

/// Exec component list of `s`, kinds as in [`path_components`].
pub fn components_of(s: &[char]) -> (r: Vec<(u8, Vec<char>)>)
    ensures
        comps_match(r@, path_components(s@)),
{
    let rooted = s.len() > 0 && s[0] == '/';
    let pieces = crate::text::split_chars(s, '/');
    let ghost ps = split_on(s@, '/');
    let mut out: Vec<(u8, Vec<char>)> = Vec::new();
    if rooted {
        out.push((0u8, Vec::new()));
    }
    let ghost root: Seq<(int, Seq<char>)> = if rooted {
        seq![(0int, Seq::<char>::empty())]
    } else {
        Seq::empty()
    };
    let mut k: usize = 0;
    while k < pieces.len()
        invariant
            pieces@.len() == ps.len(),
            forall|j: int| 0 <= j < pieces@.len() ==> #[trigger] pieces@[j]@ == ps[j],
            0 <= k <= pieces@.len(),
            rooted == (s@.len() > 0 && s@[0] == '/'),
            root == (if rooted {
                seq![(0int, Seq::<char>::empty())]
            } else {
                Seq::<(int, Seq<char>)>::empty()
            }),
            out@.len() == root.len() + piece_components(ps.take(k as int), rooted).len(),
            forall|j: int|
                0 <= j < out@.len() ==> (#[trigger] out@[j]).0 as int == (root + piece_components(
                    ps.take(k as int),
                    rooted,
                ))[j].0 && out@[j].1@ == (root + piece_components(ps.take(k as int), rooted))[j].1,
        decreases pieces.len() - k,
    {
        proof {
            assert(ps.take(k + 1).drop_last() =~= ps.take(k as int));
            assert(ps.take(k + 1).last() == ps[k as int]);
        }
        let p = &pieces[k];
        let is_dot = p.len() == 1 && p[0] == '.';
        let is_dotdot = p.len() == 2 && p[0] == '.' && p[1] == '.';
        proof {
            if is_dot {
                assert(p@ =~= seq!['.']);
            } else {
                assert(p@ != seq!['.']);
            }
            if is_dotdot {
                assert(p@ =~= seq!['.', '.']);
            } else {
                assert(p@ != seq!['.', '.']);
            }
        }
        if p.len() == 0 || (is_dot && (k > 0 || rooted)) {
        } else {
            let kind: u8 = if is_dot {
                1
            } else if is_dotdot {
                2
            } else {
                3
            };
            let c = crate::text::slice_chars(p, 0, p.len());
            proof {
                assert(p@.subrange(0, p@.len() as int) =~= p@);
            }
            let ghost before = out@;
            out.push((kind, c));
            proof {
                let target = root + piece_components(ps.take(k + 1), rooted);
                assert(target =~= (root + piece_components(ps.take(k as int), rooted)).push((piece_kind(p@), p@)));
            }
        }
        k = k + 1;
    }
    proof {
        assert(ps.take(pieces@.len() as int) =~= ps);
    }
    out
}

/// Exec [`chars_less`].
pub(crate) fn chars_less_exec(a: &Vec<char>, b: &Vec<char>) -> (r: bool)
    ensures
        r == chars_less(a@, b@),
{
    let mut i: usize = 0;
    assert(a@.skip(0) =~= a@);
    assert(b@.skip(0) =~= b@);
    while i < a.len() && i < b.len() && a[i] == b[i]
        invariant
            0 <= i <= a@.len(),
            i <= b@.len(),
            forall|j: int| 0 <= j < i ==> a@[j] == b@[j],
            chars_less(a@, b@) == chars_less(a@.skip(i as int), b@.skip(i as int)),
        decreases a.len() - i,
    {
        proof {
            assert(a@.skip(i as int).drop_first() =~= a@.skip(i + 1));
            assert(b@.skip(i as int).drop_first() =~= b@.skip(i + 1));
        }
        i = i + 1;
    }
    proof {
        if i < a@.len() {
            assert(a@.skip(i as int)[0] == a@[i as int]);
        }
        if i < b@.len() {
            assert(b@.skip(i as int)[0] == b@[i as int]);
        }
    }
    if i == a.len() {
        i < b.len()
    } else if i == b.len() {
        false
    } else {
        a[i] < b[i]
    }
}

/// `v` holds the components `c`.
pub open spec fn comps_match(v: Seq<(u8, Vec<char>)>, c: Seq<(int, Seq<char>)>) -> bool {
    &&& v.len() == c.len()
    &&& forall|i: int| 0 <= i < v.len() ==> (#[trigger] v[i]).0 as int == c[i].0 && v[i].1@ == c[i].1
}

/// Exec [`comps_less`] on component lists.
pub(crate) fn comps_less_exec(a: &Vec<(u8, Vec<char>)>, b: &Vec<(u8, Vec<char>)>, ga: Ghost<Seq<(int, Seq<char>)>>, gb: Ghost<Seq<(int, Seq<char>)>>) -> (r: bool)
    requires
        comps_match(a@, ga@),
        comps_match(b@, gb@),
    ensures
        r == comps_less(ga@, gb@),
{
    let ghost x = ga@;
    let ghost y = gb@;
    let mut i: usize = 0;
    assert(x.skip(0) =~= x);
    assert(y.skip(0) =~= y);
    while i < a.len() && i < b.len() && a[i].0 == b[i].0 && crate::text::chars_eq(&a[i].1, &b[i].1)
        invariant
            a@.len() == x.len(),
            b@.len() == y.len(),
            forall|j: int| 0 <= j < a@.len() ==> (#[trigger] a@[j]).0 as int == x[j].0 && a@[j].1@ == x[j].1,
            forall|j: int| 0 <= j < b@.len() ==> (#[trigger] b@[j]).0 as int == y[j].0 && b@[j].1@ == y[j].1,
            0 <= i <= a@.len(),
            i <= b@.len(),
            comps_less(x, y) == comps_less(x.skip(i as int), y.skip(i as int)),
        decreases a.len() - i,
    {
        proof {
            assert(x[i as int] == y[i as int]);
            assert(x.skip(i as int)[0] == x[i as int]);
            assert(y.skip(i as int)[0] == y[i as int]);
            assert(x.skip(i as int).drop_first() =~= x.skip(i + 1));
            assert(y.skip(i as int).drop_first() =~= y.skip(i + 1));
        }
        i = i + 1;
    }
    if i == a.len() {
        i < b.len()
    } else if i == b.len() {
        false
    } else {
        proof {
            assert(x.skip(i as int)[0] == x[i as int]);
            assert(y.skip(i as int)[0] == y[i as int]);
            assert(x[i as int] != y[i as int]);
        }
        if a[i].0 != b[i].0 {
            a[i].0 < b[i].0
        } else {
            chars_less_exec(&a[i].1, &b[i].1)
        }
    }
}

/// Whether path `a` sorts before path `b`.
pub fn path_before(a: &[char], b: &[char]) -> (r: bool)
    ensures
        r == path_less(a@, b@),
{
    let ca = components_of(a);
    let cb = components_of(b);
    comps_less_exec(&ca, &cb, Ghost(path_components(a@)), Ghost(path_components(b@)))
}

/// Whether two component lists are equal.
pub(crate) fn comps_same(a: &Vec<(u8, Vec<char>)>, b: &Vec<(u8, Vec<char>)>, ga: Ghost<Seq<(int, Seq<char>)>>, gb: Ghost<Seq<(int, Seq<char>)>>) -> (r: bool)
    requires
        comps_match(a@, ga@),
        comps_match(b@, gb@),
    ensures
        r == (ga@ == gb@),
{
    let x = comps_less_exec(a, b, ga, gb);
    let y = comps_less_exec(b, a, gb, ga);
    proof {
        lemma_comps_less_total(ga@, gb@);
        if ga@ == gb@ {
            lemma_comps_less_irrefl(ga@);
        }
    }
    !x && !y
}

/// Whether `a` and `b` name the same path.
pub fn same_path(a: &[char], b: &[char]) -> (r: bool)
    ensures
        r == path_same(a@, b@),
{
    let ca = components_of(a);
    let cb = components_of(b);
    let x = comps_less_exec(&ca, &cb, Ghost(path_components(a@)), Ghost(path_components(b@)));
    let y = comps_less_exec(&cb, &ca, Ghost(path_components(b@)), Ghost(path_components(a@)));
    proof {
        lemma_comps_less_total(path_components(a@), path_components(b@));
        if path_components(a@) == path_components(b@) {
            lemma_comps_less_irrefl(path_components(a@));
        }
    }
    !x && !y
}


/// What `std::path::Path::strip_prefix` leaves of `file` once the components of
/// `base` are taken off its front, as text; `None` when they are not its prefix.
pub uninterp spec fn stripped_path(file: Seq<char>, base: Seq<char>) -> Option<Seq<char>>;

/// The final component of `file` as `std::path::Path::file_name` gives it, as text.
pub uninterp spec fn file_name_of(file: Seq<char>) -> Option<Seq<char>>;

/// Calls `std::path::Path::strip_prefix` on `file` and `base` and turns the remaining
/// path back into text. The contract only names the result ([`stripped_path`]);
/// how components are matched is std's.
#[verifier::external_body]
pub(crate) fn strip_path_prefix(file: &str, base: &str) -> (r: Option<String>)
    ensures
        match r {
            Some(s) => stripped_path(file@, base@) == Some(s@),
            None => stripped_path(file@, base@) is None,
        },
{
    std::path::Path::new(file).strip_prefix(base).ok().and_then(|p| p.to_str()).map(String::from)
}

/// Calls `std::path::Path::file_name` on `file`, as text. The contract only names the
/// result ([`file_name_of`]).
#[verifier::external_body]
fn path_file_name(file: &str) -> (r: Option<String>)
    ensures
        match r {
            Some(s) => file_name_of(file@) == Some(s@),
            None => file_name_of(file@) is None,
        },
{
    std::path::Path::new(file).file_name().and_then(|n| n.to_str()).map(String::from)
}

/// How a report shows `file` when the run started from `base`: unchanged for an
/// empty base or a file outside it, the rest after the base otherwise, and the file
/// name when nothing is left (the file is the base).
pub open spec fn display_spec(file: Seq<char>, base: Seq<char>) -> Seq<char> {
    if base.len() == 0 {
        file
    } else {
        match stripped_path(file, base) {
            Some(rel) => if rel.len() == 0 {
                match file_name_of(file) {
                    Some(n) => n,
                    None => file,
                }
            } else {
                rel
            },
            None => file,
        }
    }
}

/// The path shown for `file` in a report of a run started at `base`.
pub fn display_path(file: &str, base: &str) -> (r: String)
    ensures
        r@ == display_spec(file@, base@),
{
    broadcast use vstd::string::group_string_axioms;

    if base.unicode_len() == 0 {
        return file.to_string();
    }
    match strip_path_prefix(file, base) {
        Some(rel) => {
            if rel.as_str().unicode_len() == 0 {
                match path_file_name(file) {
                    Some(n) => n,
                    None => file.to_string(),
                }
            } else {
                rel
            }
        },
        None => file.to_string(),
    }
}

} // verus!
