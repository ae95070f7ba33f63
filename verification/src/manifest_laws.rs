//! Properties of the changed-lines manifest as a whole: the model depends only
//! on which lines the manifest holds, not on their order, and a manifest is empty
//! exactly when all its lines are blank or comments.
use vstd::prelude::*;
use crate::changed_lines::{
    covers, coverage, keeps_spec, manifest_spec, manifest_text, normalize, parse_line_spec, parse_piece_spec,
    parse_ranges_spec, ChangedLines, MalformedSpec,
};
use crate::text::split_on;

verus! {

/// The line is blank or a comment once its `\r` is stripped and it is trimmed.
pub open spec fn skipped(l: Seq<char>) -> bool {
    manifest_text(l).len() == 0 || manifest_text(l)[0] == '#'
}

/// What one manifest line records, whatever its position: its normalised path
/// with its ranges (`None` for the whole file); `None` for a skipped or
/// malformed line.
pub open spec fn line_entry(l: Seq<char>) -> Option<(Seq<char>, Option<Seq<(u32, u32)>>)> {
    if skipped(l) {
        None
    } else {
        match parse_line_spec(manifest_text(l), 0) {
            Ok((p, rs)) => Some((normalize(p), rs)),
            Err(_) => None,
        }
    }
}

/// The recorded entry `e` is for the path `k`.
pub open spec fn entry_path_is(e: Option<(Seq<char>, Option<Seq<(u32, u32)>>)>, k: Seq<char>) -> bool {
    match e {
        Some((p, _)) => p == k,
        None => false,
    }
}

/// The recorded entry `e` is for the whole of `k`.
pub open spec fn entry_whole_is(e: Option<(Seq<char>, Option<Seq<(u32, u32)>>)>, k: Seq<char>) -> bool {
    match e {
        Some((p, None)) => p == k,
        _ => false,
    }
}

/// The recorded entry `e` is for `k` with a range covering `x`.
pub open spec fn entry_covers(e: Option<(Seq<char>, Option<Seq<(u32, u32)>>)>, k: Seq<char>, x: int) -> bool {
    match e {
        Some((p, Some(rs))) => p == k && covers(rs, x),
        _ => false,
    }
}

/// Some line of `ls` names the path `k`.
pub open spec fn names(ls: Seq<Seq<char>>, k: Seq<char>) -> bool {
    exists|i: int| 0 <= i < ls.len() && entry_path_is(#[trigger] line_entry(ls[i]), k)
}

/// Some line of `ls` names `k` without ranges.
pub open spec fn names_whole(ls: Seq<Seq<char>>, k: Seq<char>) -> bool {
    exists|i: int| 0 <= i < ls.len() && entry_whole_is(#[trigger] line_entry(ls[i]), k)
}

/// Some line of `ls` names `k` with a range that covers `x`.
pub open spec fn names_line(ls: Seq<Seq<char>>, k: Seq<char>, x: int) -> bool {
    exists|i: int| 0 <= i < ls.len() && entry_covers(#[trigger] line_entry(ls[i]), k, x)
}

proof fn lemma_piece_line_free(raw: Seq<char>, a: int, b: int)
    ensures
        parse_piece_spec(raw, a) is Ok <==> parse_piece_spec(raw, b) is Ok,
        parse_piece_spec(raw, a) is Ok ==> parse_piece_spec(raw, a) == parse_piece_spec(raw, b),
{
    reveal(parse_piece_spec);
}

proof fn lemma_ranges_line_free(pieces: Seq<Seq<char>>, a: int, b: int)
    ensures
        parse_ranges_spec(pieces, a) is Ok <==> parse_ranges_spec(pieces, b) is Ok,
        parse_ranges_spec(pieces, a) is Ok ==> parse_ranges_spec(pieces, a) == parse_ranges_spec(pieces, b),
    decreases pieces.len(),
{
    if pieces.len() > 0 {
        lemma_ranges_line_free(pieces.drop_last(), a, b);
        lemma_piece_line_free(pieces.last(), a, b);
    }
}

/// A line parses the same wherever it stands; only an error names its number.
proof fn lemma_line_free(t: Seq<char>, a: int, b: int)
    ensures
        parse_line_spec(t, a) is Ok <==> parse_line_spec(t, b) is Ok,
        parse_line_spec(t, a) is Ok ==> parse_line_spec(t, a) == parse_line_spec(t, b),
{
    if t.contains(':') {
        let c = crate::changed_lines::last_index(t, ':');
        lemma_ranges_line_free(split_on(t.skip(c + 1), ','), a, b);
    }
}

/// The model of a well-formed manifest, line by line: its paths are those some
/// line names; a path is whole-file when some line names it without ranges, and
/// otherwise covers the lines its ranges cover. Every line that is not skipped
/// names a path.
proof fn lemma_model(ls: Seq<Seq<char>>, m: Map<Seq<char>, Option<Set<int>>>)
    requires
        manifest_spec(ls) == Ok::<Map<Seq<char>, Option<Set<int>>>, MalformedSpec>(m),
    ensures
        forall|i: int| 0 <= i < ls.len() && !skipped(ls[i]) ==> (#[trigger] line_entry(ls[i])) is Some,
        forall|k: Seq<char>| #[trigger] m.contains_key(k) <==> names(ls, k),
        forall|k: Seq<char>| m.contains_key(k) ==> ((#[trigger] m[k]) is None <==> names_whole(ls, k)),
        forall|k: Seq<char>, x: int|
            m.contains_key(k) && m[k] is Some ==> (m[k]->Some_0.contains(x) <==> #[trigger] names_line(ls, k, x)),
    decreases ls.len(),
{
    if ls.len() > 0 {
        let p = ls.drop_last();
        let l = ls.last();
        let m0 = manifest_spec(p)->Ok_0;
        lemma_model(p, m0);
        assert forall|i: int| 0 <= i < p.len() implies #[trigger] ls[i] == p[i] by {}
        let t = manifest_text(l);
        if t.len() == 0 || t[0] == '#' {
            assert(m == m0);
            assert(line_entry(l) is None);
            assert forall|k: Seq<char>| #[trigger] m.contains_key(k) <==> names(ls, k) by {
                if names(ls, k) {
                    let i = choose|i: int| 0 <= i < ls.len() && entry_path_is(#[trigger] line_entry(ls[i]), k);
                    assert(i < p.len());
                    assert(line_entry(p[i]) == line_entry(ls[i]));
                }
                if names(p, k) {
                    let i = choose|i: int| 0 <= i < p.len() && entry_path_is(#[trigger] line_entry(p[i]), k);
                    assert(line_entry(ls[i]) == line_entry(p[i]));
                }
            }
            assert forall|k: Seq<char>| m.contains_key(k) implies ((#[trigger] m[k]) is None <==> names_whole(ls, k)) by {
                if names_whole(ls, k) {
                    let i = choose|i: int| 0 <= i < ls.len() && entry_whole_is(#[trigger] line_entry(ls[i]), k);
                    assert(i < p.len());
                    assert(line_entry(p[i]) == line_entry(ls[i]));
                }
                if names_whole(p, k) {
                    let i = choose|i: int| 0 <= i < p.len() && entry_whole_is(#[trigger] line_entry(p[i]), k);
                    assert(line_entry(ls[i]) == line_entry(p[i]));
                }
            }
            assert forall|k: Seq<char>, x: int| m.contains_key(k) && m[k] is Some implies (m[k]->Some_0.contains(x) <==> #[trigger] names_line(ls, k, x)) by {
                if names_line(ls, k, x) {
                    let i = choose|i: int| 0 <= i < ls.len() && entry_covers(#[trigger] line_entry(ls[i]), k, x);
                    assert(i < p.len());
                    assert(line_entry(p[i]) == line_entry(ls[i]));
                }
                if names_line(p, k, x) {
                    let i = choose|i: int| 0 <= i < p.len() && entry_covers(#[trigger] line_entry(p[i]), k, x);
                    assert(line_entry(ls[i]) == line_entry(p[i]));
                }
            }
        } else {
            lemma_line_free(t, ls.len() as int, 0);
            let (q, rs) = parse_line_spec(t, ls.len() as int)->Ok_0;
            let key = normalize(q);
            assert(line_entry(l) == Some((key, rs)));
            assert(m == crate::changed_lines::add_entry(m0, key, rs));
            let last = ls.len() - 1;
            assert(ls[last] == l);
            lemma_model_step(ls, m0, m, key, rs);
        }
    }
}

proof fn lemma_names_step(ls: Seq<Seq<char>>, key: Seq<char>, rs: Option<Seq<(u32, u32)>>)
    requires
        ls.len() > 0,
        line_entry(ls.last()) == Some((key, rs)),
    ensures
        forall|k: Seq<char>| #[trigger] names(ls, k) <==> names(ls.drop_last(), k) || k == key,
{
    let p = ls.drop_last();
    let last = ls.len() - 1;
    assert(ls[last] == ls.last());
    assert forall|k: Seq<char>| #[trigger] names(ls, k) <==> names(p, k) || k == key by {
        if names(ls, k) {
            let i = choose|i: int| 0 <= i < ls.len() && entry_path_is(#[trigger] line_entry(ls[i]), k);
            if i < last {
                assert(line_entry(p[i]) == line_entry(ls[i]));
            }
        }
        if names(p, k) {
            let i = choose|i: int| 0 <= i < p.len() && entry_path_is(#[trigger] line_entry(p[i]), k);
            assert(line_entry(ls[i]) == line_entry(p[i]));
        }
        if k == key {
            assert(entry_path_is(line_entry(ls[last]), k));
        }
    }
}

proof fn lemma_whole_step(ls: Seq<Seq<char>>, key: Seq<char>, rs: Option<Seq<(u32, u32)>>)
    requires
        ls.len() > 0,
        line_entry(ls.last()) == Some((key, rs)),
    ensures
        forall|k: Seq<char>| #[trigger] names_whole(ls, k) <==> names_whole(ls.drop_last(), k) || (k == key && rs is None),
{
    let p = ls.drop_last();
    let last = ls.len() - 1;
    assert(ls[last] == ls.last());
    assert forall|k: Seq<char>| #[trigger] names_whole(ls, k) <==> names_whole(p, k) || (k == key && rs is None) by {
        if names_whole(ls, k) {
            let i = choose|i: int| 0 <= i < ls.len() && entry_whole_is(#[trigger] line_entry(ls[i]), k);
            if i < last {
                assert(line_entry(p[i]) == line_entry(ls[i]));
            }
        }
        if names_whole(p, k) {
            let i = choose|i: int| 0 <= i < p.len() && entry_whole_is(#[trigger] line_entry(p[i]), k);
            assert(line_entry(ls[i]) == line_entry(p[i]));
        }
        if k == key && rs is None {
            assert(entry_whole_is(line_entry(ls[last]), k));
        }
    }
}

proof fn lemma_line_step(ls: Seq<Seq<char>>, key: Seq<char>, rs: Option<Seq<(u32, u32)>>)
    requires
        ls.len() > 0,
        line_entry(ls.last()) == Some((key, rs)),
    ensures
        forall|k: Seq<char>, x: int|
            #[trigger] names_line(ls, k, x) <==> names_line(ls.drop_last(), k, x) || entry_covers(Some((key, rs)), k, x),
{
    let p = ls.drop_last();
    let last = ls.len() - 1;
    assert(ls[last] == ls.last());
    assert forall|k: Seq<char>, x: int| #[trigger] names_line(ls, k, x) <==> names_line(p, k, x) || entry_covers(
        Some((key, rs)),
        k,
        x,
    ) by {
        if names_line(ls, k, x) {
            let i = choose|i: int| 0 <= i < ls.len() && entry_covers(#[trigger] line_entry(ls[i]), k, x);
            if i < last {
                assert(line_entry(p[i]) == line_entry(ls[i]));
            }
        }
        if names_line(p, k, x) {
            let i = choose|i: int| 0 <= i < p.len() && entry_covers(#[trigger] line_entry(p[i]), k, x);
            assert(line_entry(ls[i]) == line_entry(p[i]));
        }
        if entry_covers(Some((key, rs)), k, x) {
            assert(entry_covers(line_entry(ls[last]), k, x));
        }
    }
}

/// What recording `key` with `rs` does to a model.
proof fn lemma_add_entry(m0: Map<Seq<char>, Option<Set<int>>>, key: Seq<char>, rs: Option<Seq<(u32, u32)>>)
    ensures
        forall|k: Seq<char>|
            #[trigger] crate::changed_lines::add_entry(m0, key, rs).contains_key(k) <==> m0.contains_key(k) || k == key,
        forall|k: Seq<char>| k != key ==> #[trigger] crate::changed_lines::add_entry(m0, key, rs)[k] == m0[k],
        crate::changed_lines::add_entry(m0, key, rs)[key] is None <==> ((m0.contains_key(key) && m0[key] is None)
            || rs is None),
        crate::changed_lines::add_entry(m0, key, rs)[key] is Some ==> forall|x: int|
            crate::changed_lines::add_entry(m0, key, rs)[key]->Some_0.contains(x) <==> ((m0.contains_key(key)
                && m0[key] is Some && m0[key]->Some_0.contains(x)) || (rs matches Some(r) && covers(r, x))),
{
}

/// The step of [`lemma_model`] for a last line that records `key` with `rs`.
proof fn lemma_model_step(
    ls: Seq<Seq<char>>,
    m0: Map<Seq<char>, Option<Set<int>>>,
    m: Map<Seq<char>, Option<Set<int>>>,
    key: Seq<char>,
    rs: Option<Seq<(u32, u32)>>,
)
    requires
        ls.len() > 0,
        line_entry(ls.last()) == Some((key, rs)),
        m == crate::changed_lines::add_entry(m0, key, rs),
        forall|i: int| 0 <= i < ls.len() - 1 && !skipped(ls[i]) ==> (#[trigger] line_entry(ls[i])) is Some,
        forall|k: Seq<char>| #[trigger] m0.contains_key(k) <==> names(ls.drop_last(), k),
        forall|k: Seq<char>| m0.contains_key(k) ==> ((#[trigger] m0[k]) is None <==> names_whole(ls.drop_last(), k)),
        forall|k: Seq<char>, x: int|
            m0.contains_key(k) && m0[k] is Some ==> (m0[k]->Some_0.contains(x) <==> #[trigger] names_line(ls.drop_last(), k, x)),
    ensures
        forall|i: int| 0 <= i < ls.len() && !skipped(ls[i]) ==> (#[trigger] line_entry(ls[i])) is Some,
        forall|k: Seq<char>| #[trigger] m.contains_key(k) <==> names(ls, k),
        forall|k: Seq<char>| m.contains_key(k) ==> ((#[trigger] m[k]) is None <==> names_whole(ls, k)),
        forall|k: Seq<char>, x: int|
            m.contains_key(k) && m[k] is Some ==> (m[k]->Some_0.contains(x) <==> #[trigger] names_line(ls, k, x)),
{
    let p = ls.drop_last();
    let last = ls.len() - 1;
    assert(ls[last] == ls.last());
    assert forall|i: int| 0 <= i < ls.len() && !skipped(ls[i]) implies (#[trigger] line_entry(ls[i])) is Some by {
        if i < last {
            assert(ls[i] == p[i]);
        }
    }
    lemma_add_entry(m0, key, rs);
    lemma_names_step(ls, key, rs);
    lemma_whole_step(ls, key, rs);
    lemma_line_step(ls, key, rs);
    lemma_step_whole(p, m0, m, key, rs);
    lemma_step_lines(p, m0, m, key, rs);
    assert forall|k: Seq<char>| m.contains_key(k) implies ((#[trigger] m[k]) is None <==> names_whole(ls, k)) by {
        assert(names_whole(ls, k) <==> names_whole(p, k) || (k == key && rs is None));
    }
    assert forall|k: Seq<char>, x: int| m.contains_key(k) && m[k] is Some implies (m[k]->Some_0.contains(x)
        <==> #[trigger] names_line(ls, k, x)) by {
        assert(names_line(ls, k, x) <==> names_line(p, k, x) || entry_covers(Some((key, rs)), k, x));
    }
}

/// Whole-file entries after recording `key` with `rs`, in terms of the earlier lines `p`.
proof fn lemma_step_whole(
    p: Seq<Seq<char>>,
    m0: Map<Seq<char>, Option<Set<int>>>,
    m: Map<Seq<char>, Option<Set<int>>>,
    key: Seq<char>,
    rs: Option<Seq<(u32, u32)>>,
)
    requires
        m == crate::changed_lines::add_entry(m0, key, rs),
        forall|k: Seq<char>| #[trigger] m.contains_key(k) <==> m0.contains_key(k) || k == key,
        forall|k: Seq<char>| k != key ==> #[trigger] m[k] == m0[k],
        m[key] is None <==> ((m0.contains_key(key) && m0[key] is None) || rs is None),
        forall|k: Seq<char>| #[trigger] m0.contains_key(k) <==> names(p, k),
        forall|k: Seq<char>| m0.contains_key(k) ==> ((#[trigger] m0[k]) is None <==> names_whole(p, k)),
    ensures
        forall|k: Seq<char>| m.contains_key(k) ==> ((#[trigger] m[k]) is None <==> names_whole(p, k) || (k == key && rs is None)),
{
    assert forall|k: Seq<char>| m.contains_key(k) implies ((#[trigger] m[k]) is None <==> names_whole(p, k) || (k == key
        && rs is None)) by {
        if k == key && !m0.contains_key(k) && names_whole(p, k) {
            let i = choose|i: int| 0 <= i < p.len() && entry_whole_is(#[trigger] line_entry(p[i]), k);
            assert(entry_path_is(line_entry(p[i]), k));
            assert(names(p, k));
        }
    }
}

/// Covered lines after recording `key` with `rs`, in terms of the earlier lines `p`.
proof fn lemma_step_lines(
    p: Seq<Seq<char>>,
    m0: Map<Seq<char>, Option<Set<int>>>,
    m: Map<Seq<char>, Option<Set<int>>>,
    key: Seq<char>,
    rs: Option<Seq<(u32, u32)>>,
)
    requires
        forall|k: Seq<char>| #[trigger] m.contains_key(k) <==> m0.contains_key(k) || k == key,
        forall|k: Seq<char>| k != key ==> #[trigger] m[k] == m0[k],
        m[key] is None <==> ((m0.contains_key(key) && m0[key] is None) || rs is None),
        m[key] is Some ==> forall|x: int|
            m[key]->Some_0.contains(x) <==> ((m0.contains_key(key) && m0[key] is Some && m0[key]->Some_0.contains(x))
                || (rs matches Some(r) && covers(r, x))),
        forall|k: Seq<char>| #[trigger] m0.contains_key(k) <==> names(p, k),
        forall|k: Seq<char>, x: int|
            m0.contains_key(k) && m0[k] is Some ==> (m0[k]->Some_0.contains(x) <==> #[trigger] names_line(p, k, x)),
        forall|k: Seq<char>| m0.contains_key(k) ==> ((#[trigger] m0[k]) is None <==> names_whole(p, k)),
    ensures
        forall|k: Seq<char>, x: int|
            m.contains_key(k) && m[k] is Some ==> (m[k]->Some_0.contains(x) <==> #[trigger] names_line(p, k, x)
                || entry_covers(Some((key, rs)), k, x)),
{
    assert forall|k: Seq<char>, x: int| m.contains_key(k) && m[k] is Some implies (m[k]->Some_0.contains(x)
        <==> #[trigger] names_line(p, k, x) || entry_covers(Some((key, rs)), k, x)) by {
        if k == key {
            if !m0.contains_key(k) && names_line(p, k, x) {
                let i = choose|i: int| 0 <= i < p.len() && entry_covers(#[trigger] line_entry(p[i]), k, x);
                assert(entry_path_is(line_entry(p[i]), k));
                assert(names(p, k));
            }
            if m0.contains_key(k) && m0[k] is Some {
                assert(m0[k]->Some_0.contains(x) <==> names_line(p, k, x));
            }
        }
    }
}

/// Every line that is not skipped parses.
pub open spec fn all_lines_parse(ls: Seq<Seq<char>>) -> bool {
    forall|i: int| 0 <= i < ls.len() && !skipped(ls[i]) ==> (#[trigger] line_entry(ls[i])) is Some
}

/// A manifest is well formed exactly when each of its lines is.
proof fn lemma_ok_iff_lines_parse(ls: Seq<Seq<char>>)
    ensures
        manifest_spec(ls) is Ok <==> all_lines_parse(ls),
    decreases ls.len(),
{
    if ls.len() > 0 {
        let p = ls.drop_last();
        let l = ls.last();
        let last = ls.len() - 1;
        assert(ls[last] == l);
        lemma_ok_iff_lines_parse(p);
        assert(all_lines_parse(ls) <==> all_lines_parse(p) && (skipped(l) || line_entry(l) is Some)) by {
            if all_lines_parse(ls) {
                assert forall|i: int| 0 <= i < p.len() && !skipped(p[i]) implies (#[trigger] line_entry(p[i])) is Some by {
                    assert(ls[i] == p[i]);
                }
            }
            if all_lines_parse(p) && (skipped(l) || line_entry(l) is Some) {
                assert forall|i: int| 0 <= i < ls.len() && !skipped(ls[i]) implies (#[trigger] line_entry(ls[i])) is Some by {
                    if i < last {
                        assert(ls[i] == p[i]);
                    }
                }
            }
        }
        let t = manifest_text(l);
        if !(t.len() == 0 || t[0] == '#') {
            lemma_line_free(t, ls.len() as int, 0);
        }
    }
}

/// The model of a manifest depends only on which lines it holds: reordering the
/// lines (or repeating one) of a well-formed manifest gives a well-formed manifest
/// with the same paths, each whole-file or covering the same lines. Repeated paths union their ranges, and a whole-file line wins
/// wherever it stands.
pub proof fn law_manifest_order_does_not_matter(
    la: Seq<Seq<char>>,
    lb: Seq<Seq<char>>,
    m1: Map<Seq<char>, Option<Set<int>>>,
    m2: Map<Seq<char>, Option<Set<int>>>,
)
    requires
        manifest_spec(la) == Ok::<Map<Seq<char>, Option<Set<int>>>, MalformedSpec>(m1),
        forall|t: Seq<char>| la.contains(t) <==> lb.contains(t),
    ensures
        manifest_spec(lb) is Ok,
        manifest_spec(lb) == Ok::<Map<Seq<char>, Option<Set<int>>>, MalformedSpec>(m2) ==> m1 == m2,
{
    lemma_ok_iff_lines_parse(la);
    lemma_ok_iff_lines_parse(lb);
    assert forall|i: int| 0 <= i < lb.len() && !skipped(lb[i]) implies (#[trigger] line_entry(lb[i])) is Some by {
        assert(lb.contains(lb[i]));
        let j = choose|j: int| 0 <= j < la.len() && la[j] == lb[i];
        assert(line_entry(la[j]) is Some);
    }
    if manifest_spec(lb) == Ok::<Map<Seq<char>, Option<Set<int>>>, MalformedSpec>(m2) {
        lemma_model(la, m1);
        lemma_model(lb, m2);
        assert forall|k: Seq<char>| names(la, k) <==> names(lb, k) by {
            if names(la, k) {
                let i = choose|i: int| 0 <= i < la.len() && entry_path_is(#[trigger] line_entry(la[i]), k);
                assert(la.contains(la[i]));
                let j = choose|j: int| 0 <= j < lb.len() && lb[j] == la[i];
                assert(line_entry(lb[j]) == line_entry(la[i]));
            }
            if names(lb, k) {
                let i = choose|i: int| 0 <= i < lb.len() && entry_path_is(#[trigger] line_entry(lb[i]), k);
                assert(lb.contains(lb[i]));
                let j = choose|j: int| 0 <= j < la.len() && la[j] == lb[i];
                assert(line_entry(la[j]) == line_entry(lb[i]));
            }
        }
        assert forall|k: Seq<char>| names_whole(la, k) <==> names_whole(lb, k) by {
            if names_whole(la, k) {
                let i = choose|i: int| 0 <= i < la.len() && entry_whole_is(#[trigger] line_entry(la[i]), k);
                assert(la.contains(la[i]));
                let j = choose|j: int| 0 <= j < lb.len() && lb[j] == la[i];
                assert(line_entry(lb[j]) == line_entry(la[i]));
            }
            if names_whole(lb, k) {
                let i = choose|i: int| 0 <= i < lb.len() && entry_whole_is(#[trigger] line_entry(lb[i]), k);
                assert(lb.contains(lb[i]));
                let j = choose|j: int| 0 <= j < la.len() && la[j] == lb[i];
                assert(line_entry(la[j]) == line_entry(lb[i]));
            }
        }
        assert forall|k: Seq<char>, x: int| names_line(la, k, x) <==> names_line(lb, k, x) by {
            if names_line(la, k, x) {
                let i = choose|i: int| 0 <= i < la.len() && entry_covers(#[trigger] line_entry(la[i]), k, x);
                assert(la.contains(la[i]));
                let j = choose|j: int| 0 <= j < lb.len() && lb[j] == la[i];
                assert(line_entry(lb[j]) == line_entry(la[i]));
            }
            if names_line(lb, k, x) {
                let i = choose|i: int| 0 <= i < lb.len() && entry_covers(#[trigger] line_entry(lb[i]), k, x);
                assert(lb.contains(lb[i]));
                let j = choose|j: int| 0 <= j < la.len() && la[j] == lb[i];
                assert(line_entry(la[j]) == line_entry(lb[i]));
            }
        }
        assert forall|k: Seq<char>| m1.contains_key(k) implies m2.contains_key(k) && m1[k] == m2[k] by {
            assert(names(la, k));
            assert(names_whole(la, k) <==> names_whole(lb, k));
            if m1[k] is Some {
                let s1 = m1[k]->Some_0;
                let s2 = m2[k]->Some_0;
                assert forall|x: int| s1.contains(x) <==> s2.contains(x) by {
                    assert(names_line(la, k, x) <==> names_line(lb, k, x));
                }
                assert(s1 =~= s2);
            }
        }
        assert(m1.dom() =~= m2.dom());
        assert(m1 =~= m2);
    }
}

/// Two manifests with the same lines in another order keep the same paths and
/// keep the same findings.
pub proof fn law_reordered_manifest_keeps_the_same(
    c1: ChangedLines,
    c2: ChangedLines,
    la: Seq<Seq<char>>,
    lb: Seq<Seq<char>>,
)
    requires
        manifest_spec(la) == Ok::<Map<Seq<char>, Option<Set<int>>>, MalformedSpec>(c1.model()),
        manifest_spec(lb) == Ok::<Map<Seq<char>, Option<Set<int>>>, MalformedSpec>(c2.model()),
        c1.path_seq().to_set() == c1.model().dom(),
        c2.path_seq().to_set() == c2.model().dom(),
        forall|t: Seq<char>| la.contains(t) <==> lb.contains(t),
    ensures
        c1.path_seq().to_set() == c2.path_seq().to_set(),
        forall|f: Seq<char>, line: int| keeps_spec(c1.model(), f, line) == keeps_spec(c2.model(), f, line),
{
    law_manifest_order_does_not_matter(la, lb, c1.model(), c2.model());
    assert(c1.model() == c2.model());
}

/// A well-formed manifest is empty exactly when every line is blank or a comment.
pub proof fn law_empty_manifest_is_all_blank_or_comments(ls: Seq<Seq<char>>, m: Map<Seq<char>, Option<Set<int>>>)
    requires
        manifest_spec(ls) == Ok::<Map<Seq<char>, Option<Set<int>>>, MalformedSpec>(m),
    ensures
        m.dom() == Set::<Seq<char>>::empty() <==> forall|i: int| 0 <= i < ls.len() ==> skipped(#[trigger] ls[i]),
{
    lemma_model(ls, m);
    if forall|i: int| 0 <= i < ls.len() ==> skipped(#[trigger] ls[i]) {
        assert forall|k: Seq<char>| !m.dom().contains(k) by {
            if names(ls, k) {
                let i = choose|i: int| 0 <= i < ls.len() && entry_path_is(#[trigger] line_entry(ls[i]), k);
                assert(skipped(ls[i]));
            }
        }
        assert(m.dom() =~= Set::<Seq<char>>::empty());
    } else {
        let i = choose|i: int| 0 <= i < ls.len() && !skipped(#[trigger] ls[i]);
        let k = line_entry(ls[i])->Some_0.0;
        assert(names(ls, k));
        assert(m.dom().contains(k));
    }
}

} // verus!
