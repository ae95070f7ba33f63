//! Which Python files a run lints: explicit files unless an exclude glob matches
//! them, and the files found under each directory that an `include_globs` pattern matches and
//! no exclude glob does (both taken relative to the directory), each path once, in
//! the order first seen.
use vstd::prelude::*;
use crate::config::{strings_view, Config};
use crate::paths::{comps_match, comps_same, components_of, path_components, path_same, stripped_path};
use crate::text::str_chars;

verus! {

#[verifier::external_type_specification]
#[verifier::external_body]
pub struct ExGlobSet(globset::GlobSet);

/// The error text `globset::Glob::new` gives for `pattern`; `None` when it parses.
pub uninterp spec fn glob_error(pattern: Seq<char>) -> Option<Seq<char>>;

/// The patterns a glob set was built from, in order.
pub uninterp spec fn glob_set_patterns(s: globset::GlobSet) -> Seq<Seq<char>>;

/// What `globset::GlobSet::is_match` answers for `path` on a set built from
/// `patterns`: whether any of them matches.
pub uninterp spec fn glob_set_match(patterns: Seq<Seq<char>>, path: Seq<char>) -> bool;

/// Calls `globset::Glob::new` on `pattern` and keeps the error's text. The contract
/// names the result ([`glob_error`]); the glob syntax is globset's.
#[verifier::external_body]
fn glob_parse_error(pattern: &str) -> (r: Option<String>)
    ensures
        match r {
            Some(m) => glob_error(pattern@) == Some(m@),
            None => glob_error(pattern@) is None,
        },
{
    globset::Glob::new(pattern).err().map(|e| e.to_string())
}

/// Whether a glob set can be built from `patterns`: each parses with
/// `globset::Glob::new`, and `globset::GlobSetBuilder::build` succeeds on them.
pub uninterp spec fn glob_set_builds(patterns: Seq<Seq<char>>) -> bool;

/// Builds a `globset::GlobSet` from `patterns` (each through `globset::Glob::new`,
/// then `GlobSetBuilder::build`). Claimed: the build succeeds exactly when
/// [`glob_set_builds`] of the patterns, a function of the patterns alone, and a set
/// that is built holds `patterns`; when it fails, the error's text comes back.
#[verifier::external_body]
fn build_glob_set(patterns: &Vec<String>) -> (r: Result<globset::GlobSet, String>)
    ensures
        r is Ok <==> glob_set_builds(strings_view(patterns@)),
        r matches Ok(s) ==> glob_set_patterns(s) == strings_view(patterns@),
{
    let mut builder = globset::GlobSetBuilder::new();
    for p in patterns {
        match globset::Glob::new(p) {
            Ok(g) => {
                builder.add(g);
            },
            Err(e) => return Err(e.to_string()),
        }
    }
    builder.build().map_err(|e| e.to_string())
}

/// Calls `globset::GlobSet::is_match` on `path`. The contract names the result
/// ([`glob_set_match`] of the set's patterns); how a glob matches is globset's.
#[verifier::external_body]
fn glob_set_is_match(set: &globset::GlobSet, path: &str) -> (r: bool)
    ensures
        r == glob_set_match(glob_set_patterns(*set), path@),
{
    set.is_match(std::path::Path::new(path))
}

/// One path a run was asked to lint, as the file system showed it.
pub enum InputPath {
    /// Nothing exists there.
    Missing,
    /// A file.
    File(String),
    /// A directory, with the files a walk of it (honouring ignore files) found,
    /// in walk order, and the walk's error text if it failed.
    Dir { root: String, entries: Vec<String>, walk_error: Option<String> },
}

/// Why discovery failed.
#[derive(Debug)]
pub enum DiscoveryError {
    /// A glob of `include_globs` or `exclude` does not parse (or the set of them
    /// could not be built; then `pattern` is the list joined by commas).
    Glob { pattern: String, message: String },
    /// Walking the directory `path` failed.
    Walk { path: String, message: String },
}

/// The first pattern of `ps` that does not parse, with its error text.
pub open spec fn first_glob_error(ps: Seq<Seq<char>>) -> Option<(Seq<char>, Seq<char>)>
    decreases ps.len(),
{
    if ps.len() == 0 {
        None
    } else {
        let prev = first_glob_error(ps.drop_last());
        if prev is Some {
            prev
        } else {
            match glob_error(ps.last()) {
                Some(m) => Some((ps.last(), m)),
                None => None,
            }
        }
    }
}

/// The walk error of a directory input: its root and the error text.
pub open spec fn walk_error_of(x: InputPath) -> Option<(Seq<char>, Seq<char>)> {
    match x {
        InputPath::Dir { root, walk_error: Some(m), .. } => Some((root@, m@)),
        _ => None,
    }
}

/// The first input whose walk failed.
pub open spec fn first_walk_error(xs: Seq<InputPath>) -> Option<(Seq<char>, Seq<char>)>
    decreases xs.len(),
{
    if xs.len() == 0 {
        None
    } else {
        let prev = first_walk_error(xs.drop_last());
        if prev is Some {
            prev
        } else {
            walk_error_of(xs.last())
        }
    }
}

/// `e` taken relative to `root` (unchanged when `root` is not its prefix).
pub open spec fn relative_to(e: Seq<char>, root: Seq<char>) -> Seq<char> {
    match stripped_path(e, root) {
        Some(rel) => rel,
        None => e,
    }
}

/// A walked file is linted: relative to its directory, an `include_globs` pattern matches
/// it and no exclude glob does.
pub open spec fn entry_kept(inc: Seq<Seq<char>>, exc: Seq<Seq<char>>, root: Seq<char>, e: Seq<char>) -> bool {
    let rel = relative_to(e, root);
    !glob_set_match(exc, rel) && glob_set_match(inc, rel)
}

/// The walked files of one directory that are linted, in walk order.
pub open spec fn kept_entries(inc: Seq<Seq<char>>, exc: Seq<Seq<char>>, root: Seq<char>, es: Seq<Seq<char>>) -> Seq<Seq<char>>
    decreases es.len(),
{
    if es.len() == 0 {
        Seq::empty()
    } else {
        kept_entries(inc, exc, root, es.drop_last()) + if entry_kept(inc, exc, root, es.last()) {
            seq![es.last()]
        } else {
            Seq::empty()
        }
    }
}

/// What one input contributes: an explicit file unless an exclude glob matches
/// it, the kept files of a directory.
pub open spec fn input_candidates(inc: Seq<Seq<char>>, exc: Seq<Seq<char>>, x: InputPath) -> Seq<Seq<char>> {
    match x {
        InputPath::Missing => Seq::empty(),
        InputPath::File(p) => if glob_set_match(exc, p@) {
            Seq::empty()
        } else {
            seq![p@]
        },
        InputPath::Dir { root, entries, .. } => kept_entries(inc, exc, root@, strings_view(entries@)),
    }
}

/// Every candidate of the inputs `xs`, in order.
pub open spec fn all_candidates(inc: Seq<Seq<char>>, exc: Seq<Seq<char>>, xs: Seq<InputPath>) -> Seq<Seq<char>>
    decreases xs.len(),
{
    if xs.len() == 0 {
        Seq::empty()
    } else {
        all_candidates(inc, exc, xs.drop_last()) + input_candidates(inc, exc, xs.last())
    }
}

/// `cs` with every path dropped that names the same path as one kept before it.
pub open spec fn first_seen(cs: Seq<Seq<char>>) -> Seq<Seq<char>>
    decreases cs.len(),
{
    if cs.len() == 0 {
        Seq::empty()
    } else {
        let prev = first_seen(cs.drop_last());
        if exists|j: int| 0 <= j < prev.len() && path_same(#[trigger] prev[j], cs.last()) {
            prev
        } else {
            prev.push(cs.last())
        }
    }
}

/// Discovery names each path once: no two files it keeps name the same path, and
/// every candidate is named by one it keeps.
pub proof fn law_discovered_paths_are_distinct(cs: Seq<Seq<char>>)
    ensures
        forall|i: int, j: int|
            0 <= i < j < first_seen(cs).len() ==> !path_same(#[trigger] first_seen(cs)[i], #[trigger] first_seen(cs)[j]),
        forall|k: int| #![trigger cs[k]] 0 <= k < cs.len() ==> exists|j: int| 0 <= j < first_seen(cs).len() && path_same(#[trigger] first_seen(cs)[j], cs[k]),
    decreases cs.len(),
{
    if cs.len() > 0 {
        let prev = first_seen(cs.drop_last());
        law_discovered_paths_are_distinct(cs.drop_last());
        let out = first_seen(cs);
        assert forall|k: int| #![trigger cs[k]] 0 <= k < cs.len() implies exists|j: int| 0 <= j < out.len() && path_same(#[trigger] out[j], cs[k]) by {
            if k < cs.len() - 1 {
                assert(cs[k] == cs.drop_last()[k]);
                let j = choose|j: int| 0 <= j < prev.len() && path_same(#[trigger] prev[j], cs.drop_last()[k]);
                assert(out[j] == prev[j]);
            } else if exists|j: int| 0 <= j < prev.len() && path_same(#[trigger] prev[j], cs.last()) {
                let j = choose|j: int| 0 <= j < prev.len() && path_same(#[trigger] prev[j], cs.last());
                assert(out[j] == prev[j]);
            } else {
                assert(out[prev.len() as int] == cs.last());
            }
        }
    }
}

/// The first glob of `ps` that does not parse.
fn check_globs(ps: &Vec<String>) -> (r: Option<(String, String)>)
    ensures
        match r {
            Some((p, m)) => first_glob_error(strings_view(ps@)) == Some((p@, m@)),
            None => first_glob_error(strings_view(ps@)) is None,
        },
{
    let ghost v = strings_view(ps@);
    let mut k: usize = 0;
    while k < ps.len()
        invariant
            v == strings_view(ps@),
            k <= ps@.len(),
            first_glob_error(v.take(k as int)) is None,
        decreases ps.len() - k,
    {
        proof {
            assert(v.take(k + 1).drop_last() =~= v.take(k as int));
            assert(v.take(k + 1).last() == ps@[k as int]@);
        }
        match glob_parse_error(ps[k].as_str()) {
            Some(m) => {
                proof {
                    assert(v.take(k + 1) =~= v.take(k as int).push(ps@[k as int]@));
                    lemma_first_glob_error_prefix(v, k + 1);
                }
                return Some((ps[k].clone(), m));
            },
            None => {},
        }
        k = k + 1;
    }
    assert(v.take(ps@.len() as int) =~= v);
    None
}

/// A parse error among the first `k` patterns is the first one of all.
proof fn lemma_first_glob_error_prefix(v: Seq<Seq<char>>, k: int)
    requires
        0 <= k <= v.len(),
        first_glob_error(v.take(k)) is Some,
    ensures
        first_glob_error(v) == first_glob_error(v.take(k)),
    decreases v.len() - k,
{
    if k < v.len() {
        assert(v.take(k + 1).drop_last() =~= v.take(k));
        lemma_first_glob_error_prefix(v, k + 1);
    } else {
        assert(v.take(k) =~= v);
    }
}

/// A walk error among the first `k` inputs is the first one of all.
proof fn lemma_first_walk_error_prefix(xs: Seq<InputPath>, k: int)
    requires
        0 <= k <= xs.len(),
        first_walk_error(xs.take(k)) is Some,
    ensures
        first_walk_error(xs) == first_walk_error(xs.take(k)),
    decreases xs.len() - k,
{
    if k < xs.len() {
        assert(xs.take(k + 1).drop_last() =~= xs.take(k));
        lemma_first_walk_error_prefix(xs, k + 1);
    } else {
        assert(xs.take(k) =~= xs);
    }
}

/// The paths kept so far, with their components.
pub open spec fn seen_ok(out: Seq<String>, seen: Seq<Vec<(u8, Vec<char>)>>) -> bool {
    &&& out.len() == seen.len()
    &&& forall|j: int| 0 <= j < out.len() ==> comps_match(#[trigger] seen[j]@, path_components(out[j]@))
}

/// Adds `c` to `out` unless it names a path already there.
fn add_first_seen(out: &mut Vec<String>, seen: &mut Vec<Vec<(u8, Vec<char>)>>, c: &String, Ghost(cs): Ghost<Seq<Seq<char>>>)
    requires
        seen_ok(old(out)@, old(seen)@),
        strings_view(old(out)@) == first_seen(cs),
    ensures
        seen_ok(final(out)@, final(seen)@),
        strings_view(final(out)@) == first_seen(cs.push(c@)),
{
    let cc = components_of(&str_chars(c.as_str()));
    let ghost gc = path_components(c@);
    let ghost prev = strings_view(out@);
    assert(cs.push(c@).drop_last() =~= cs);
    let mut j: usize = 0;
    while j < out.len()
        invariant
            seen_ok(out@, seen@),
            comps_match(cc@, gc),
            gc == path_components(c@),
            prev == strings_view(out@),
            prev == first_seen(cs),
            j <= out@.len(),
            forall|i: int| 0 <= i < j ==> !path_same(#[trigger] prev[i], c@),
        decreases out.len() - j,
    {
        if comps_same(&seen[j], &cc, Ghost(path_components(out@[j as int]@)), Ghost(gc)) {
            proof {
                assert(prev[j as int] == out@[j as int]@);
                assert(path_same(prev[j as int], c@));
                assert(cs.push(c@).last() == c@);
                assert(cs.push(c@).drop_last() =~= cs);
                assert(first_seen(cs.push(c@)) == prev);
            }
            return;
        }
        j = j + 1;
    }
    out.push(c.clone());
    seen.push(cc);
    proof {
        assert(strings_view(out@) =~= prev.push(c@));
        assert forall|k: int| 0 <= k < out@.len() implies comps_match(#[trigger] seen@[k]@, path_components(out@[k]@)) by {
            if k == out@.len() - 1 {
                assert(out@[k]@ == c@);
            }
        }
    }
}

/// What discovery gives for the globs `inc` and `exc` and the inputs `xs`: the
/// first `inc` glob that does not parse, else the `inc` list when it cannot be
/// built into a set, then the same for `exc`; else the first failed walk; else
/// the files.
pub open spec fn discover_outcome(
    inc: Seq<Seq<char>>,
    exc: Seq<Seq<char>>,
    xs: Seq<InputPath>,
    r: Result<Vec<String>, DiscoveryError>,
) -> bool {
    if let Some((p, m)) = first_glob_error(inc) {
        r matches Err(DiscoveryError::Glob { pattern, message }) && pattern@ == p && message@ == m
    } else if !glob_set_builds(inc) {
        r matches Err(DiscoveryError::Glob { pattern, .. }) && pattern@ == joined_by_commas(inc)
    } else if let Some((p, m)) = first_glob_error(exc) {
        r matches Err(DiscoveryError::Glob { pattern, message }) && pattern@ == p && message@ == m
    } else if !glob_set_builds(exc) {
        r matches Err(DiscoveryError::Glob { pattern, .. }) && pattern@ == joined_by_commas(exc)
    } else if let Some((p, m)) = first_walk_error(xs) {
        r matches Err(DiscoveryError::Walk { path, message }) && path@ == p && message@ == m
    } else {
        r matches Ok(files) && strings_view(files@) == first_seen(all_candidates(inc, exc, xs))
    }
}

/// The files of a run: for each input in order, an explicit file unless an
/// exclude glob matches it, and the files walked under a directory that, taken
/// relative to it, an `include_globs` pattern matches and no exclude glob does; each path
/// once, where first seen. The `include_globs` patterns are parsed and built into
/// a set first, then the `exclude` ones; a glob that does not parse or a list
/// that cannot be built fails the run, and so does a failed walk; otherwise the
/// run succeeds (see [`discover_outcome`]).
pub fn discover(inputs: &Vec<InputPath>, config: &Config) -> (r: Result<Vec<String>, DiscoveryError>)
    ensures
        discover_outcome(
            strings_view(config.include_globs@),
            strings_view(config.exclude@),
            inputs@,
            r,
        ),
{
    let ghost inc = strings_view(config.include_globs@);
    let ghost exc = strings_view(config.exclude@);
    match check_globs(&config.include_globs) {
        Some((pattern, message)) => return Err(DiscoveryError::Glob { pattern, message }),
        None => {},
    }
    let inc_set = match build_glob_set(&config.include_globs) {
        Ok(s) => s,
        Err(message) => return Err(DiscoveryError::Glob { pattern: join_commas(&config.include_globs), message }),
    };
    match check_globs(&config.exclude) {
        Some((pattern, message)) => return Err(DiscoveryError::Glob { pattern, message }),
        None => {},
    }
    let exc_set = match build_glob_set(&config.exclude) {
        Ok(s) => s,
        Err(message) => return Err(DiscoveryError::Glob { pattern: join_commas(&config.exclude), message }),
    };
    let mut out: Vec<String> = Vec::new();
    let mut seen: Vec<Vec<(u8, Vec<char>)>> = Vec::new();
    let mut k: usize = 0;
    while k < inputs.len()
        invariant
            glob_set_patterns(inc_set) == inc,
            glob_set_patterns(exc_set) == exc,
            inc == strings_view(config.include_globs@),
            exc == strings_view(config.exclude@),
            first_glob_error(inc) is None,
            first_glob_error(exc) is None,
            glob_set_builds(inc),
            glob_set_builds(exc),
            k <= inputs@.len(),
            first_walk_error(inputs@.take(k as int)) is None,
            seen_ok(out@, seen@),
            strings_view(out@) == first_seen(all_candidates(inc, exc, inputs@.take(k as int))),
        decreases inputs.len() - k,
    {
        let ghost before = all_candidates(inc, exc, inputs@.take(k as int));
        proof {
            assert(inputs@.take(k + 1).drop_last() =~= inputs@.take(k as int));
            assert(inputs@.take(k + 1).last() == inputs@[k as int]);
        }
        match &inputs[k] {
            InputPath::Missing => {
                assert(before + Seq::<Seq<char>>::empty() =~= before);
            },
            InputPath::File(p) => {
                if glob_set_is_match(&exc_set, p.as_str()) {
                    assert(before + Seq::<Seq<char>>::empty() =~= before);
                } else {
                    add_first_seen(&mut out, &mut seen, p, Ghost(before));
                    assert(before + seq![p@] =~= before.push(p@));
                }
            },
            InputPath::Dir { root, entries, walk_error } => {
                match walk_error {
                    Some(message) => {
                        proof {
                            assert(first_walk_error(inputs@.take(k + 1)) == Some((root@, message@)));
                            lemma_first_walk_error_prefix(inputs@, k + 1);
                        }
                        return Err(DiscoveryError::Walk { path: root.clone(), message: message.clone() });
                    },
                    None => {},
                }
                let ghost es = strings_view(entries@);
                let mut i: usize = 0;
                while i < entries.len()
                    invariant
                        glob_set_patterns(inc_set) == inc,
                        glob_set_patterns(exc_set) == exc,
                        es == strings_view(entries@),
                        i <= entries@.len(),
                        seen_ok(out@, seen@),
                        strings_view(out@) == first_seen(before + kept_entries(inc, exc, root@, es.take(i as int))),
                    decreases entries.len() - i,
                {
                    let e = &entries[i];
                    let ghost sofar = before + kept_entries(inc, exc, root@, es.take(i as int));
                    proof {
                        assert(es.take(i + 1).drop_last() =~= es.take(i as int));
                        assert(es.take(i + 1).last() == e@);
                    }
                    let rel = match crate::paths::strip_path_prefix(e.as_str(), root.as_str()) {
                        Some(s) => s,
                        None => e.clone(),
                    };
                    if !glob_set_is_match(&exc_set, rel.as_str()) && glob_set_is_match(&inc_set, rel.as_str()) {
                        add_first_seen(&mut out, &mut seen, e, Ghost(sofar));
                        assert(before + kept_entries(inc, exc, root@, es.take(i + 1)) =~= sofar.push(e@));
                    } else {
                        assert(before + kept_entries(inc, exc, root@, es.take(i + 1)) =~= sofar);
                    }
                    i = i + 1;
                }
                assert(es.take(entries@.len() as int) =~= es);
            },
        }
        k = k + 1;
    }
    assert(inputs@.take(inputs@.len() as int) =~= inputs@);
    Ok(out)
}

/// `ps` joined by commas.
pub open spec fn joined_by_commas(ps: Seq<Seq<char>>) -> Seq<char>
    decreases ps.len(),
{
    if ps.len() == 0 {
        Seq::empty()
    } else if ps.len() == 1 {
        ps[0]
    } else {
        joined_by_commas(ps.drop_last()) + seq![','] + ps.last()
    }
}

/// `ps` joined by commas.
fn join_commas(ps: &Vec<String>) -> (r: String)
    ensures
        r@ == joined_by_commas(strings_view(ps@)),
{
    let ghost v = strings_view(ps@);
    let mut out: Vec<char> = Vec::new();
    let mut k: usize = 0;
    while k < ps.len()
        invariant
            v == strings_view(ps@),
            k <= ps@.len(),
            out@ == joined_by_commas(v.take(k as int)),
        decreases ps.len() - k,
    {
        proof {
            assert(v.take(k + 1).drop_last() =~= v.take(k as int));
            assert(v.take(k + 1).last() == ps@[k as int]@);
            if k == 0 {
                assert(v.take(k + 1) =~= seq![ps@[0]@]);
            }
        }
        if k > 0 {
            out.push(',');
        }
        crate::text::push_all(&mut out, &str_chars(ps[k].as_str()));
        proof {
            if k == 0 {
                assert(out@ =~= ps@[0]@);
            } else {
                assert(out@ =~= joined_by_commas(v.take(k as int)) + seq![','] + ps@[k as int]@);
            }
        }
        k = k + 1;
    }
    assert(v.take(ps@.len() as int) =~= v);
    crate::text::string_of(&out)
}

} // verus!
