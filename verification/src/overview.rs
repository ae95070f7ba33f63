//! Per-file view of a report: findings grouped by file, files with the most findings
//! first, and the discovered files that produced none.
use vstd::prelude::*;
use crate::paths::{comps_less, comps_match, path_components, path_less, path_same};
use crate::report::{group_rep, keys_of, Finding, Report, Severity};
use crate::text::decimal;
use crate::rules::rule_name_spec;
use crate::guide::REPORT_FOOTER;

verus! {

/// Aggregate counters of an overview.
#[derive(Debug)]
pub struct OverviewSummary {
    pub files_scanned: usize,
    pub files_with_findings: usize,
    pub total_findings: usize,
}

/// A file that produced at least one finding, with its findings in input order.
#[derive(Debug)]
pub struct FileOverview {
    pub path: String,
    pub finding_count: usize,
    pub findings: Vec<Finding>,
}

/// Per-file overview of a scan.
#[derive(Debug)]
pub struct OverviewReport {
    pub summary: OverviewSummary,
    pub files: Vec<FileOverview>,
    /// Discovered files without findings, in discovery order.
    pub clean_files: Vec<String>,
}

/// The findings among the first `n` of `fs` that share the file of finding `g`, when
/// `g` is the first finding of its file.
pub open spec fn members(fs: Seq<Finding>, g: int, n: int) -> Seq<Finding>
    decreases n,
{
    if n <= 0 {
        Seq::empty()
    } else {
        let prev = members(fs, g, n - 1);
        if group_rep(keys_of(fs), n - 1) == g {
            prev.push(fs[n - 1])
        } else {
            prev
        }
    }
}

/// Finding `k` is the first finding of its file.
#[verifier::opaque]
pub open spec fn leads_group(fs: Seq<Finding>, k: int) -> bool {
    0 <= k < fs.len() && group_rep(keys_of(fs), k) == k
}

/// Some finding of `fs` is in the file `p`.
pub open spec fn has_findings(fs: Seq<Finding>, p: Seq<char>) -> bool {
    exists|k: int| 0 <= k < fs.len() && path_same(p, #[trigger] fs[k].file@)
}

/// The files of `ds` that have no finding in `fs`, in order.
pub open spec fn clean_of(fs: Seq<Finding>, ds: Seq<Seq<char>>) -> Seq<Seq<char>>
    decreases ds.len(),
{
    if ds.len() == 0 {
        Seq::empty()
    } else {
        let prev = clean_of(fs, ds.drop_last());
        if has_findings(fs, ds.last()) {
            prev
        } else {
            prev.push(ds.last())
        }
    }
}

/// Overview order of two files: more findings first, then path order.
pub open spec fn entry_before(a: FileOverview, b: FileOverview) -> bool {
    a.finding_count > b.finding_count || (a.finding_count == b.finding_count && path_less(
        a.path@,
        b.path@,
    ))
}

/// Sort key of a group: its finding count and its file's components.
pub open spec fn ekey_less(a: (int, Seq<(int, Seq<char>)>), b: (int, Seq<(int, Seq<char>)>)) -> bool {
    a.0 > b.0 || (a.0 == b.0 && comps_less(a.1, b.1))
}

proof fn lemma_ekey_trans(
    a: (int, Seq<(int, Seq<char>)>),
    b: (int, Seq<(int, Seq<char>)>),
    c: (int, Seq<(int, Seq<char>)>),
)
    requires
        ekey_less(a, b),
        ekey_less(b, c),
    ensures
        ekey_less(a, c),
{
    if a.0 == b.0 && b.0 == c.0 {
        crate::paths::lemma_comps_less_trans(a.1, b.1, c.1);
    }
}

proof fn lemma_ekey_total(a: (int, Seq<(int, Seq<char>)>), b: (int, Seq<(int, Seq<char>)>))
    requires
        a.1 != b.1,
    ensures
        ekey_less(a, b) || ekey_less(b, a),
{
    crate::paths::lemma_comps_less_total(a.1, b.1);
}

proof fn lemma_leads(fs: Seq<Finding>, k: int)
    ensures
        leads_group(fs, k) <==> (0 <= k < fs.len() && group_rep(keys_of(fs), k) == k),
{
    reveal(leads_group);
}

/// Two first findings of their files are in different files.
proof fn lemma_leaders_differ(fs: Seq<Finding>, a: int, b: int)
    requires
        leads_group(fs, a),
        leads_group(fs, b),
        a != b,
    ensures
        keys_of(fs)[a].0 != keys_of(fs)[b].0,
        group_key(fs, a).1 != group_key(fs, b).1,
{
    reveal(leads_group);
    reveal(group_key);
    let keys = keys_of(fs);
    crate::report::lemma_group_rep(keys, a);
    crate::report::lemma_group_rep(keys, b);
    if keys[a].0 == keys[b].0 {
        if a < b {
            assert(keys[a].0 != keys[b].0);
        } else {
            assert(keys[b].0 != keys[a].0);
        }
    }
}


/// The sort key of group `g`: its finding count and its file's components.
pub open spec fn group_key(fs: Seq<Finding>, g: int) -> (int, Seq<(int, Seq<char>)>) {
    (members(fs, g, fs.len() as int).len() as int, keys_of(fs)[g].0)
}

/// Copies of the findings of group `g`, in order.
fn group_members(fs: &Vec<Finding>, reps: &Vec<usize>, g: usize) -> (r: Vec<Finding>)
    requires
        reps@.len() == fs@.len(),
        forall|k: int| 0 <= k < fs@.len() ==> #[trigger] reps@[k] as int == group_rep(keys_of(fs@), k),
    ensures
        r@ == members(fs@, g as int, fs@.len() as int),
{
    let mut out: Vec<Finding> = Vec::new();
    let mut j: usize = 0;
    while j < fs.len()
        invariant
            reps@.len() == fs@.len(),
            forall|k: int| 0 <= k < fs@.len() ==> #[trigger] reps@[k] as int == group_rep(keys_of(fs@), k),
            0 <= j <= fs@.len(),
            out@ == members(fs@, g as int, j as int),
        decreases fs.len() - j,
    {
        if reps[j] == g {
            out.push(fs[j].copied());
        }
        j = j + 1;
    }
    out
}

/// `o` lists first findings of their files, below `k`, in [`ekey_less`] order.
pub open spec fn leaders_sorted(fs: Seq<Finding>, o: Seq<usize>, k: int) -> bool {
    &&& forall|i: int| 0 <= i < o.len() ==> leads_group(fs, #[trigger] o[i] as int) && o[i] < k
    &&& forall|i: int, j: int|
        0 <= i < j < o.len() ==> ekey_less(group_key(fs, #[trigger] o[i] as int), group_key(fs, #[trigger] o[j] as int))
}

proof fn lemma_insert_leader(fs: Seq<Finding>, o: Seq<usize>, k: int, p: int)
    requires
        0 <= k < fs.len(),
        k <= usize::MAX,
        leads_group(fs, k),
        leaders_sorted(fs, o, k),
        0 <= p <= o.len(),
        forall|q: int| 0 <= q < p ==> !ekey_less(group_key(fs, k), group_key(fs, #[trigger] o[q] as int)),
        p < o.len() ==> ekey_less(group_key(fs, k), group_key(fs, o[p] as int)),
    ensures
        leaders_sorted(fs, o.insert(p, k as usize), k + 1),
{
    let o2 = o.insert(p, k as usize);
    assert forall|q: int| 0 <= q < p implies ekey_less(group_key(fs, #[trigger] o[q] as int), group_key(fs, k)) by {
        lemma_leaders_differ(fs, o[q] as int, k);
        lemma_ekey_total(group_key(fs, o[q] as int), group_key(fs, k));
    }
    assert forall|i: int, j: int| 0 <= i < j < o2.len() implies ekey_less(
        group_key(fs, #[trigger] o2[i] as int),
        group_key(fs, #[trigger] o2[j] as int),
    ) by {
        if j < p {
            assert(o2[i] == o[i] && o2[j] == o[j]);
        } else if j == p {
            assert(o2[i] == o[i]);
        } else if i < p {
            assert(o2[i] == o[i] && o2[j] == o[j - 1]);
        } else if i == p {
            assert(o2[j] == o[j - 1]);
            if j - 1 > p {
                lemma_ekey_trans(group_key(fs, k), group_key(fs, o[p] as int), group_key(fs, o[j - 1] as int));
            }
        } else {
            assert(o2[i] == o[i - 1] && o2[j] == o[j - 1]);
        }
    }
    assert forall|i: int| 0 <= i < o2.len() implies leads_group(fs, #[trigger] o2[i] as int) && o2[i] < k + 1 by {
        if i < p {
            assert(o2[i] == o[i]);
        } else if i > p {
            assert(o2[i] == o[i - 1]);
        }
    }
}

/// Where group `k` goes in the sorted leaders `ord`: before the first that it precedes.
fn find_slot(fs: &Vec<Finding>, cache: &Vec<Vec<(u8, Vec<char>)>>, counts: &Vec<usize>, ord: &Vec<usize>, k: usize) -> (p: usize)
    requires
        cache@.len() == fs@.len(),
        forall|x: int| 0 <= x < fs@.len() ==> comps_match(#[trigger] cache@[x]@, path_components(fs@[x].file@)),
        counts@.len() == fs@.len(),
        forall|x: int| 0 <= x < fs@.len() ==> #[trigger] counts@[x] as int == group_key(fs@, x).0,
        k < fs@.len(),
        leads_group(fs@, k as int),
        leaders_sorted(fs@, ord@, k as int),
    ensures
        0 <= p <= ord@.len(),
        forall|q: int| 0 <= q < p ==> !ekey_less(group_key(fs@, k as int), group_key(fs@, #[trigger] ord@[q] as int)),
        p < ord@.len() ==> ekey_less(group_key(fs@, k as int), group_key(fs@, ord@[p as int] as int)),
{
    let mut p: usize = 0;
    while p < ord.len()
        invariant
            cache@.len() == fs@.len(),
            forall|x: int| 0 <= x < fs@.len() ==> comps_match(#[trigger] cache@[x]@, path_components(fs@[x].file@)),
            counts@.len() == fs@.len(),
            forall|x: int| 0 <= x < fs@.len() ==> #[trigger] counts@[x] as int == group_key(fs@, x).0,
            k < fs@.len(),
            leads_group(fs@, k as int),
            leaders_sorted(fs@, ord@, k as int),
            0 <= p <= ord@.len(),
            forall|q: int| 0 <= q < p ==> !ekey_less(group_key(fs@, k as int), group_key(fs@, #[trigger] ord@[q] as int)),
        decreases ord.len() - p,
    {
        assert(ord@[p as int] < k);
        if group_before(fs, cache, counts, k, ord[p]) {
            return p;
        }
        p = p + 1;
    }
    p
}

/// The first findings of their files, ordered by [`ekey_less`] of their groups.
#[verifier::rlimit(30)]
fn sorted_leaders(fs: &Vec<Finding>, cache: &Vec<Vec<(u8, Vec<char>)>>, reps: &Vec<usize>, counts: &Vec<usize>) -> (r: Vec<usize>)
    requires
        cache@.len() == fs@.len(),
        forall|x: int| 0 <= x < fs@.len() ==> comps_match(#[trigger] cache@[x]@, path_components(fs@[x].file@)),
        reps@.len() == fs@.len(),
        forall|k: int| 0 <= k < fs@.len() ==> #[trigger] reps@[k] as int == group_rep(keys_of(fs@), k),
        counts@.len() == fs@.len(),
        forall|x: int| 0 <= x < fs@.len() ==> #[trigger] counts@[x] as int == group_key(fs@, x).0,
    ensures
        leaders_sorted(fs@, r@, fs@.len() as int),
        forall|g: int| leads_group(fs@, g) ==> exists|i: int| 0 <= i < r@.len() && #[trigger] r@[i] as int == g,
{
    let mut ord: Vec<usize> = Vec::new();
    let mut k: usize = 0;
    while k < fs.len()
        invariant
            cache@.len() == fs@.len(),
            forall|x: int| 0 <= x < fs@.len() ==> comps_match(#[trigger] cache@[x]@, path_components(fs@[x].file@)),
            reps@.len() == fs@.len(),
            forall|x: int| 0 <= x < fs@.len() ==> #[trigger] reps@[x] as int == group_rep(keys_of(fs@), x),
            counts@.len() == fs@.len(),
            forall|x: int| 0 <= x < fs@.len() ==> #[trigger] counts@[x] as int == group_key(fs@, x).0,
            0 <= k <= fs@.len(),
            leaders_sorted(fs@, ord@, k as int),
            forall|g: int| 0 <= g < k && leads_group(fs@, g) ==> exists|i: int| 0 <= i < ord@.len() && #[trigger] ord@[i] as int == g,
        decreases fs.len() - k,
    {
        proof {
            lemma_leads(fs@, k as int);
        }
        if reps[k] == k {
            let p = find_slot(fs, cache, counts, &ord, k);
            let ghost o = ord@;
            proof {
                lemma_insert_leader(fs@, o, k as int, p as int);
            }
            ord.insert(p, k);
            proof {
                assert(ord@ == o.insert(p as int, k));
                assert forall|g: int| 0 <= g < k + 1 && leads_group(fs@, g) implies exists|i: int| 0 <= i < ord@.len() && #[trigger] ord@[i] as int == g by {
                    if g == k {
                        assert(ord@[p as int] as int == g);
                    } else {
                        let i = choose|i: int| 0 <= i < o.len() && #[trigger] o[i] as int == g;
                        if i < p {
                            assert(ord@[i] as int == g);
                        } else {
                            assert(ord@[i + 1] as int == g);
                        }
                    }
                }
            }
        } else {
            assert(leaders_sorted(fs@, ord@, k + 1));
        }
        k = k + 1;
    }
    proof {
        assert forall|g: int| leads_group(fs@, g) implies exists|i: int| 0 <= i < ord@.len() && #[trigger] ord@[i] as int == g by {
            lemma_leads(fs@, g);
        }
    }
    ord
}

/// Whether group `a` comes before group `b` (both first findings of their files).
fn group_before(fs: &Vec<Finding>, cache: &Vec<Vec<(u8, Vec<char>)>>, counts: &Vec<usize>, a: usize, b: usize) -> (r: bool)
    requires
        cache@.len() == fs@.len(),
        forall|x: int| 0 <= x < fs@.len() ==> comps_match(#[trigger] cache@[x]@, path_components(fs@[x].file@)),
        counts@.len() == fs@.len(),
        forall|x: int| 0 <= x < fs@.len() ==> #[trigger] counts@[x] as int == group_key(fs@, x).0,
        a < fs@.len(),
        b < fs@.len(),
    ensures
        r == ekey_less(group_key(fs@, a as int), group_key(fs@, b as int)),
{
    proof {
        reveal(group_key);
    }
    if counts[a] != counts[b] {
        return counts[a] > counts[b];
    }
    let ghost ca = path_components(fs@[a as int].file@);
    let ghost cb = path_components(fs@[b as int].file@);
    assert(comps_match(cache@[a as int]@, ca));
    assert(comps_match(cache@[b as int]@, cb));
    crate::paths::comps_less_exec(&cache[a], &cache[b], Ghost(ca), Ghost(cb))
}


/// Entry `e` is the group led by finding `g`, the first finding of its file: that
/// file, its findings in order, and their count.
#[verifier::opaque]
pub open spec fn entry_of(e: FileOverview, fs: Seq<Finding>, g: int) -> bool {
    &&& leads_group(fs, g)
    &&& e.path@ == fs[g].file@
    &&& e.findings@ == members(fs, g, fs.len() as int)
    &&& e.finding_count == members(fs, g, fs.len() as int).len()
}

/// Number of findings in the group led by `g`.
fn member_count(fs: &Vec<Finding>, reps: &Vec<usize>, g: usize) -> (r: usize)
    requires
        reps@.len() == fs@.len(),
        forall|k: int| 0 <= k < fs@.len() ==> #[trigger] reps@[k] as int == group_rep(keys_of(fs@), k),
    ensures
        r == members(fs@, g as int, fs@.len() as int).len(),
{
    let mut c: usize = 0;
    let mut j: usize = 0;
    while j < fs.len()
        invariant
            reps@.len() == fs@.len(),
            forall|k: int| 0 <= k < fs@.len() ==> #[trigger] reps@[k] as int == group_rep(keys_of(fs@), k),
            0 <= j <= fs@.len(),
            c == members(fs@, g as int, j as int).len(),
            c <= j,
        decreases fs.len() - j,
    {
        if reps[j] == g {
            c = c + 1;
        }
        j = j + 1;
    }
    c
}

/// The discovered files without findings, in order.
fn clean_files_of(fs: &Vec<Finding>, cache: &Vec<Vec<(u8, Vec<char>)>>, ds: &Vec<String>) -> (r: Vec<String>)
    requires
        cache@.len() == fs@.len(),
        forall|x: int| 0 <= x < fs@.len() ==> comps_match(#[trigger] cache@[x]@, path_components(fs@[x].file@)),
    ensures
        r@.map_values(|s: String| s@) == clean_of(fs@, ds@.map_values(|s: String| s@)),
{
    let ghost dv = ds@.map_values(|s: String| s@);
    let mut out: Vec<String> = Vec::new();
    let mut i: usize = 0;
    while i < ds.len()
        invariant
            cache@.len() == fs@.len(),
            forall|x: int| 0 <= x < fs@.len() ==> comps_match(#[trigger] cache@[x]@, path_components(fs@[x].file@)),
            dv == ds@.map_values(|s: String| s@),
            0 <= i <= ds@.len(),
            out@.map_values(|s: String| s@) == clean_of(fs@, dv.take(i as int)),
        decreases ds.len() - i,
    {
        proof {
            assert(dv.take(i + 1).drop_last() =~= dv.take(i as int));
            assert(dv.take(i + 1).last() == ds@[i as int]@);
        }
        let pc = crate::text::str_chars(ds[i].as_str());
        let comps = crate::paths::components_of(&pc);
        let ghost cp = path_components(ds@[i as int]@);
        let mut found = false;
        let mut k: usize = 0;
        while k < fs.len()
            invariant
                cache@.len() == fs@.len(),
                forall|x: int| 0 <= x < fs@.len() ==> comps_match(#[trigger] cache@[x]@, path_components(fs@[x].file@)),
                comps_match(comps@, cp),
                cp == path_components(ds@[i as int]@),
                0 <= k <= fs@.len(),
                found == exists|x: int| 0 <= x < k && path_same(ds@[i as int]@, #[trigger] fs@[x].file@),
            decreases fs.len() - k,
        {
            let ghost ck = path_components(fs@[k as int].file@);
            assert(comps_match(cache@[k as int]@, ck));
            let lt = crate::paths::comps_less_exec(&comps, &cache[k], Ghost(cp), Ghost(ck));
            let gt = crate::paths::comps_less_exec(&cache[k], &comps, Ghost(ck), Ghost(cp));
            proof {
                crate::paths::lemma_comps_less_total(cp, ck);
                if cp == ck {
                    crate::paths::lemma_comps_less_irrefl(cp);
                }
            }
            if !lt && !gt {
                found = true;
            }
            proof {
                if found {
                    if !lt && !gt {
                        assert(path_same(ds@[i as int]@, fs@[k as int].file@));
                    }
                }
                if exists|x: int| 0 <= x < k + 1 && path_same(ds@[i as int]@, #[trigger] fs@[x].file@) {
                    let x = choose|x: int| 0 <= x < k + 1 && path_same(ds@[i as int]@, #[trigger] fs@[x].file@);
                    if x == k {
                        assert(!lt && !gt);
                    }
                }
            }
            k = k + 1;
        }
        assert(found == has_findings(fs@, ds@[i as int]@));
        let ghost before = out@;
        if !found {
            out.push(ds[i].clone());
            proof {
                assert(out@.map_values(|s: String| s@) =~= before.map_values(|s: String| s@).push(ds@[i as int]@));
            }
        }
        i = i + 1;
    }
    proof {
        assert(dv.take(ds@.len() as int) =~= dv);
    }
    out
}

/// The first finding of its file whose file is `p`.
pub open spec fn lead_of(fs: Seq<Finding>, p: Seq<char>) -> int {
    choose|g: int| leads_group(fs, g) && fs[g].file@ == p
}

proof fn lemma_lead_of(e: FileOverview, fs: Seq<Finding>, g: int)
    requires
        entry_of(e, fs, g),
    ensures
        lead_of(fs, e.path@) == g,
{
    lemma_entry_facts(e, fs, g);
    let g2 = lead_of(fs, e.path@);
    assert(leads_group(fs, g2) && fs[g2].file@ == e.path@);
    if g2 != g {
        lemma_leaders_differ(fs, g, g2);
        reveal(leads_group);
    }
}

proof fn lemma_entry_facts(e: FileOverview, fs: Seq<Finding>, g: int)
    requires
        entry_of(e, fs, g),
    ensures
        leads_group(fs, g),
        e.path@ == fs[g].file@,
        e.finding_count == group_key(fs, g).0,
        path_components(e.path@) == group_key(fs, g).1,
{
    reveal(entry_of);
    reveal(group_key);
    reveal(leads_group);
}

proof fn lemma_entries(fs: Seq<Finding>, leaders: Seq<usize>, files: Seq<FileOverview>)
    requires
        leaders_sorted(fs, leaders, fs.len() as int),
        forall|g: int| leads_group(fs, g) ==> exists|i: int| 0 <= i < leaders.len() && #[trigger] leaders[i] as int == g,
        files.len() == leaders.len(),
        forall|j: int| 0 <= j < files.len() ==> entry_of(#[trigger] files[j], fs, leaders[j] as int),
    ensures
        forall|i: int| 0 <= i < files.len() ==> entry_of(#[trigger] files[i], fs, lead_of(fs, files[i].path@)),
        forall|g: int| leads_group(fs, g) ==> exists|i: int| 0 <= i < files.len() && entry_of(#[trigger] files[i], fs, g),
        forall|i: int, j: int| 0 <= i < j < files.len() ==> entry_before(#[trigger] files[i], #[trigger] files[j]),
{
    assert forall|i: int, j: int| 0 <= i < j < files.len() implies entry_before(#[trigger] files[i], #[trigger] files[j]) by {
        lemma_entry_facts(files[i], fs, leaders[i] as int);
        lemma_entry_facts(files[j], fs, leaders[j] as int);
        assert(ekey_less(group_key(fs, leaders[i] as int), group_key(fs, leaders[j] as int)));
    }
    assert forall|i: int| 0 <= i < files.len() implies entry_of(#[trigger] files[i], fs, lead_of(fs, files[i].path@)) by {
        lemma_lead_of(files[i], fs, leaders[i] as int);
    }
    assert forall|g: int| leads_group(fs, g) implies exists|i: int| 0 <= i < files.len() && entry_of(#[trigger] files[i], fs, g) by {
        let i = choose|i: int| 0 <= i < leaders.len() && #[trigger] leaders[i] as int == g;
        assert(entry_of(files[i], fs, leaders[i] as int));
    }
}

/// Groups the report's findings by file: files with the most findings first, ties
/// in path order, each file's findings in input order; and lists the discovered
/// files without findings, in discovery order.
pub fn compute_overview(report: &Report) -> (r: OverviewReport)
    ensures
        r.summary.files_scanned == report.files_discovered,
        r.summary.total_findings == report.findings@.len(),
        r.summary.files_with_findings == r.files@.len(),
        forall|i: int| 0 <= i < r.files@.len() ==> entry_of(#[trigger] r.files@[i], report.findings@, lead_of(report.findings@, r.files@[i].path@)),
        forall|g: int| leads_group(report.findings@, g) ==> exists|i: int|
            0 <= i < r.files@.len() && entry_of(#[trigger] r.files@[i], report.findings@, g),
        forall|i: int, j: int| 0 <= i < j < r.files@.len() ==> entry_before(#[trigger] r.files@[i], #[trigger] r.files@[j]),
        r.clean_files@.map_values(|s: String| s@) == clean_of(
            report.findings@,
            report.discovered_files@.map_values(|s: String| s@),
        ),
{
    let fs = &report.findings;
    let cache = crate::report::file_components(fs);
    let reps = crate::report::group_reps(fs, &cache);
    let mut counts: Vec<usize> = Vec::new();
    let mut x: usize = 0;
    while x < fs.len()
        invariant
            reps@.len() == fs@.len(),
            forall|k: int| 0 <= k < fs@.len() ==> #[trigger] reps@[k] as int == group_rep(keys_of(fs@), k),
            0 <= x <= fs@.len(),
            counts@.len() == x,
            forall|y: int| 0 <= y < x ==> #[trigger] counts@[y] as int == group_key(fs@, y).0,
        decreases fs.len() - x,
    {
        let c = member_count(fs, &reps, x);
        proof {
            reveal(group_key);
        }
        counts.push(c);
        x = x + 1;
    }
    let leaders = sorted_leaders(fs, &cache, &reps, &counts);
    let mut files: Vec<FileOverview> = Vec::new();
    let mut i: usize = 0;
    while i < leaders.len()
        invariant
            reps@.len() == fs@.len(),
            forall|k: int| 0 <= k < fs@.len() ==> #[trigger] reps@[k] as int == group_rep(keys_of(fs@), k),
            counts@.len() == fs@.len(),
            forall|y: int| 0 <= y < fs@.len() ==> #[trigger] counts@[y] as int == group_key(fs@, y).0,
            leaders_sorted(fs@, leaders@, fs@.len() as int),
            0 <= i <= leaders@.len(),
            files@.len() == i,
            forall|j: int| 0 <= j < i ==> entry_of(#[trigger] files@[j], fs@, leaders@[j] as int),
            forall|j: int| 0 <= j < leaders@.len() ==> leads_group(fs@, #[trigger] leaders@[j] as int),
        decreases leaders.len() - i,
    {
        let g = leaders[i];
        assert(g < fs@.len());
        let findings = group_members(fs, &reps, g);
        let e = FileOverview { path: fs[g].file.clone(), finding_count: counts[g], findings };
        proof {
            reveal(group_key);
            reveal(entry_of);
            assert(entry_of(e, fs@, g as int));
        }
        files.push(e);
        i = i + 1;
    }
    let clean = clean_files_of(fs, &cache, &report.discovered_files);
    let r = OverviewReport {
        summary: OverviewSummary {
            files_scanned: report.files_discovered,
            files_with_findings: files.len(),
            total_findings: fs.len(),
        },
        files,
        clean_files: clean,
    };
    proof {
        lemma_entries(report.findings@, leaders@, r.files@);
    }
    r
}


/// "finding" for one, "findings" otherwise.
pub open spec fn plural(n: nat) -> Seq<char> {
    if n == 1 {
        "finding"@
    } else {
        "findings"@
    }
}

/// English pluralisation of "finding".
pub fn plural_findings(count: usize) -> (r: &'static str)
    ensures
        r@ == plural(count as nat),
{
    if count == 1 {
        "finding"
    } else {
        "findings"
    }
}

/// The bullet of a finding row: plain, or wrapped in red (errors) or yellow
/// (warnings) ANSI colour codes.
pub open spec fn bullet(severity: Severity, use_color: bool) -> Seq<char> {
    if !use_color {
        "\u{25CF}"@
    } else {
        match severity {
            Severity::Error => "\x1b[31m\u{25CF}\x1b[0m"@,
            Severity::Warning => "\x1b[33m\u{25CF}\x1b[0m"@,
        }
    }
}

/// The bullet string for a finding row.
pub fn render_bullet(severity: Severity, use_color: bool) -> (r: &'static str)
    ensures
        r@ == bullet(severity, use_color),
{
    if !use_color {
        return "\u{25CF}";
    }
    match severity {
        Severity::Error => "\x1b[31m\u{25CF}\x1b[0m",
        Severity::Warning => "\x1b[33m\u{25CF}\x1b[0m",
    }
}

/// `n` spaces.
pub open spec fn spaces(n: int) -> Seq<char> {
    Seq::new(if n > 0 { n as nat } else { 0 }, |i: int| ' ')
}

/// `s` left-aligned in a field of width `w` (`{:<w$}`).
pub open spec fn pad(s: Seq<char>, w: int) -> Seq<char> {
    s + spaces(w - s.len())
}

/// `line:col` of a finding.
pub open spec fn pos_text(f: Finding) -> Seq<char> {
    decimal(f.line as nat) + ":"@ + decimal(f.column as nat)
}

/// Widest `line:col` among `fs`.
pub open spec fn pos_width(fs: Seq<Finding>) -> int
    decreases fs.len(),
{
    if fs.len() == 0 {
        0
    } else {
        let w = pos_width(fs.drop_last());
        let l = pos_text(fs.last()).len() as int;
        if l > w {
            l
        } else {
            w
        }
    }
}

/// Widest rule name among `fs`.
pub open spec fn name_width(fs: Seq<Finding>) -> int
    decreases fs.len(),
{
    if fs.len() == 0 {
        0
    } else {
        let w = name_width(fs.drop_last());
        let l = rule_name_spec(fs.last().code@).len() as int;
        if l > w {
            l
        } else {
            w
        }
    }
}

/// One finding row of a file block.
pub open spec fn finding_row(f: Finding, pw: int, nw: int, use_color: bool) -> Seq<char> {
    "  "@ + bullet(f.severity, use_color) + " "@ + pad(pos_text(f), pw) + "  "@ + f.code@ + " "@ + pad(
        rule_name_spec(f.code@),
        nw,
    ) + "  "@ + f.message@ + "\n"@
}

/// The rows of the first `n` findings of `fs`.
pub open spec fn rows_text(fs: Seq<Finding>, n: int, pw: int, nw: int, use_color: bool) -> Seq<char>
    decreases n,
{
    if n <= 0 {
        Seq::empty()
    } else {
        rows_text(fs, n - 1, pw, nw, use_color) + finding_row(fs[n - 1], pw, nw, use_color)
    }
}

/// The block of one file: a blank line, `path  N finding(s)`, then its rows aligned
/// on the file's widest position and rule name.
pub open spec fn file_block(e: FileOverview, use_color: bool) -> Seq<char> {
    "\n"@ + e.path@ + "  "@ + decimal(e.finding_count as nat) + " "@ + plural(e.finding_count as nat)
        + "\n"@ + rows_text(
        e.findings@,
        e.findings@.len() as int,
        pos_width(e.findings@),
        name_width(e.findings@),
        use_color,
    )
}

/// The blocks of the first `n` files.
pub open spec fn blocks_text(files: Seq<FileOverview>, n: int, use_color: bool) -> Seq<char>
    decreases n,
{
    if n <= 0 {
        Seq::empty()
    } else {
        blocks_text(files, n - 1, use_color) + file_block(files[n - 1], use_color)
    }
}

/// The text overview: header, file blocks, the count of clean files when there are
/// any, and the triage footer when there is a finding.
pub open spec fn overview_text(o: OverviewReport, use_color: bool) -> Seq<char> {
    "Overview: "@ + decimal(o.summary.files_scanned as nat) + " files, "@ + decimal(
        o.summary.total_findings as nat,
    ) + " findings in "@ + decimal(o.summary.files_with_findings as nat) + " files\n"@ + blocks_text(
        o.files@,
        o.files@.len() as int,
        use_color,
    ) + (if o.clean_files@.len() > 0 {
        "\n"@ + decimal(o.clean_files@.len()) + " clean files not shown.\n"@
    } else {
        Seq::empty()
    }) + (if o.summary.total_findings > 0 {
        "\n"@ + REPORT_FOOTER@ + "\n"@
    } else {
        Seq::empty()
    })
}

/// Appends `s` left-aligned in a field of width `w`.
pub(crate) fn push_padded(out: &mut Vec<char>, s: &[char], w: usize)
    ensures
        final(out)@ == old(out)@ + pad(s@, w as int),
{
    crate::text::push_all(out, s);
    let mut n: usize = s.len();
    let ghost start = out@;
    while n < w
        invariant
            s@.len() <= n <= w || (n == s@.len() && n >= w),
            out@ == start + spaces(n - s@.len()),
        decreases w - n,
    {
        out.push(' ');
        n = n + 1;
        assert(out@ =~= start + spaces(n - s@.len()));
    }
    assert(out@ =~= old(out)@ + pad(s@, w as int));
}

/// Appends the block of one file.
#[verifier::rlimit(50)]
fn push_file_block(out: &mut Vec<char>, e: &FileOverview, use_color: bool)
    ensures
        final(out)@ == old(out)@ + file_block(*e, use_color),
{
    let fs = &e.findings;
    let mut positions: Vec<Vec<char>> = Vec::new();
    let mut pw: usize = 0;
    let mut nw: usize = 0;
    let mut i: usize = 0;
    while i < fs.len()
        invariant
            0 <= i <= fs@.len(),
            positions@.len() == i,
            forall|j: int| 0 <= j < i ==> #[trigger] positions@[j]@ == pos_text(fs@[j]),
            pw as int == pos_width(fs@.take(i as int)),
            nw as int == name_width(fs@.take(i as int)),
        decreases fs.len() - i,
    {
        proof {
            assert(fs@.take(i + 1).drop_last() =~= fs@.take(i as int));
            assert(fs@.take(i + 1).last() == fs@[i as int]);
        }
        let mut pos: Vec<char> = Vec::new();
        crate::text::push_decimal(&mut pos, fs[i].line);
        crate::text::push_str(&mut pos, ":");
        crate::text::push_decimal(&mut pos, fs[i].column);
        assert(pos@ =~= pos_text(fs@[i as int]));
        if pos.len() > pw {
            pw = pos.len();
        }
        let name = crate::rules::rule_name_for(fs[i].code);
        let nl = crate::text::str_chars(name).len();
        if nl > nw {
            nw = nl;
        }
        positions.push(pos);
        i = i + 1;
    }
    proof {
        assert(fs@.take(fs@.len() as int) =~= fs@);
    }
    let ghost start = out@;
    crate::text::push_str(out, "\n");
    crate::text::push_str(out, e.path.as_str());
    crate::text::push_str(out, "  ");
    crate::text::push_decimal(out, e.finding_count);
    crate::text::push_str(out, " ");
    crate::text::push_str(out, plural_findings(e.finding_count));
    crate::text::push_str(out, "\n");
    let ghost head = out@;
    let mut k: usize = 0;
    while k < fs.len()
        invariant
            0 <= k <= fs@.len(),
            positions@.len() == fs@.len(),
            forall|j: int| 0 <= j < fs@.len() ==> #[trigger] positions@[j]@ == pos_text(fs@[j]),
            pw as int == pos_width(fs@),
            nw as int == name_width(fs@),
            out@ == head + rows_text(fs@, k as int, pw as int, nw as int, use_color),
        decreases fs.len() - k,
    {
        let f = &fs[k];
        crate::text::push_str(out, "  ");
        crate::text::push_str(out, render_bullet(f.severity, use_color));
        crate::text::push_str(out, " ");
        push_padded(out, &positions[k], pw);
        crate::text::push_str(out, "  ");
        crate::text::push_str(out, f.code);
        crate::text::push_str(out, " ");
        let name = crate::text::str_chars(crate::rules::rule_name_for(f.code));
        push_padded(out, &name, nw);
        crate::text::push_str(out, "  ");
        crate::text::push_str(out, f.message.as_str());
        crate::text::push_str(out, "\n");
        proof {
            assert(out@ =~= head + rows_text(fs@, k + 1, pw as int, nw as int, use_color));
        }
        k = k + 1;
    }
    assert(out@ =~= start + file_block(*e, use_color));
}

/// The overview as text: a header with the three counters, one block per file
/// (`path  N finding(s)` and one aligned row per finding: bullet, `line:col`, code,
/// rule name, message), the number of clean files when there are any, and the
/// triage footer when there is a finding.
pub fn format_overview_text(overview: &OverviewReport, use_color: bool) -> (r: String)
    ensures
        r@ == overview_text(*overview, use_color),
{
    let mut out: Vec<char> = Vec::new();
    crate::text::push_str(&mut out, "Overview: ");
    crate::text::push_decimal(&mut out, overview.summary.files_scanned);
    crate::text::push_str(&mut out, " files, ");
    crate::text::push_decimal(&mut out, overview.summary.total_findings);
    crate::text::push_str(&mut out, " findings in ");
    crate::text::push_decimal(&mut out, overview.summary.files_with_findings);
    crate::text::push_str(&mut out, " files\n");
    let ghost head = out@;
    let mut i: usize = 0;
    while i < overview.files.len()
        invariant
            0 <= i <= overview.files@.len(),
            out@ == head + blocks_text(overview.files@, i as int, use_color),
        decreases overview.files.len() - i,
    {
        push_file_block(&mut out, &overview.files[i], use_color);
        proof {
            assert(out@ =~= head + blocks_text(overview.files@, i + 1, use_color));
        }
        i = i + 1;
    }
    let ghost body = out@;
    if overview.clean_files.len() > 0 {
        crate::text::push_str(&mut out, "\n");
        crate::text::push_decimal(&mut out, overview.clean_files.len());
        crate::text::push_str(&mut out, " clean files not shown.\n");
    }
    let ghost cleaned = out@;
    if overview.summary.total_findings > 0 {
        crate::guide::push_report_footer(&mut out);
    }
    proof {
        assert(out@ =~= overview_text(*overview, use_color));
    }
    crate::text::string_of(&out)
}

/// Sum of the per-file finding counts.
pub open spec fn files_total(files: Seq<FileOverview>) -> nat
    decreases files.len(),
{
    if files.len() == 0 {
        0
    } else {
        files_total(files.drop_last()) + files.last().finding_count as nat
    }
}

/// The group an overview entry stands for.
spec fn lead_of_entry(fs: Seq<Finding>, e: FileOverview) -> int {
    lead_of(fs, e.path@)
}

/// Sum over the entries of their members among the first `m` findings.
spec fn members_upto(fs: Seq<Finding>, files: Seq<FileOverview>, m: int) -> nat
    decreases files.len(),
{
    if files.len() == 0 {
        0
    } else {
        members_upto(fs, files.drop_last(), m) + members(fs, lead_of_entry(fs, files.last()), m).len()
    }
}

/// Number of entries standing for the group led by `g`.
spec fn entries_for(fs: Seq<Finding>, files: Seq<FileOverview>, g: int) -> nat
    decreases files.len(),
{
    if files.len() == 0 {
        0
    } else {
        entries_for(fs, files.drop_last(), g) + if lead_of_entry(fs, files.last()) == g {
            1nat
        } else {
            0nat
        }
    }
}

proof fn lemma_members_upto_zero(fs: Seq<Finding>, files: Seq<FileOverview>)
    ensures
        members_upto(fs, files, 0) == 0,
    decreases files.len(),
{
    if files.len() > 0 {
        lemma_members_upto_zero(fs, files.drop_last());
    }
}

proof fn lemma_members_upto_step(fs: Seq<Finding>, files: Seq<FileOverview>, m: int)
    requires
        0 < m <= fs.len(),
    ensures
        members_upto(fs, files, m) == members_upto(fs, files, m - 1) + entries_for(
            fs,
            files,
            group_rep(keys_of(fs), m - 1),
        ),
    decreases files.len(),
{
    if files.len() > 0 {
        lemma_members_upto_step(fs, files.drop_last(), m);
    }
}

proof fn lemma_entries_for_none(fs: Seq<Finding>, files: Seq<FileOverview>, g: int)
    requires
        forall|i: int| 0 <= i < files.len() ==> lead_of_entry(fs, #[trigger] files[i]) != g,
    ensures
        entries_for(fs, files, g) == 0,
    decreases files.len(),
{
    if files.len() > 0 {
        let p = files.drop_last();
        assert forall|i: int| 0 <= i < p.len() implies lead_of_entry(fs, #[trigger] p[i]) != g by {
            assert(p[i] == files[i]);
        }
        lemma_entries_for_none(fs, p, g);
    }
}

proof fn lemma_entries_for_one(fs: Seq<Finding>, files: Seq<FileOverview>, g: int, k: int)
    requires
        0 <= k < files.len(),
        lead_of_entry(fs, files[k]) == g,
        forall|i: int, j: int|
            0 <= i < files.len() && 0 <= j < files.len() && i != j && lead_of_entry(fs, #[trigger] files[i]) == g
                ==> lead_of_entry(fs, #[trigger] files[j]) != g,
    ensures
        entries_for(fs, files, g) == 1,
    decreases files.len(),
{
    let p = files.drop_last();
    let last = files.len() - 1;
    if k == last {
        assert forall|i: int| 0 <= i < p.len() implies lead_of_entry(fs, #[trigger] p[i]) != g by {
            assert(p[i] == files[i]);
        }
        lemma_entries_for_none(fs, p, g);
    } else {
        assert(p[k] == files[k]);
        assert forall|i: int, j: int|
            0 <= i < p.len() && 0 <= j < p.len() && i != j && lead_of_entry(fs, #[trigger] p[i]) == g
                implies lead_of_entry(fs, #[trigger] p[j]) != g by {
            assert(p[i] == files[i] && p[j] == files[j]);
        }
        lemma_entries_for_one(fs, p, g, k);
        assert(lead_of_entry(fs, files[last]) != g);
    }
}

/// The first finding of a file leads its group.
proof fn lemma_rep_leads(fs: Seq<Finding>, k: int)
    requires
        0 <= k < fs.len(),
    ensures
        leads_group(fs, group_rep(keys_of(fs), k)),
{
    let keys = keys_of(fs);
    crate::report::lemma_group_rep(keys, k);
    let r = group_rep(keys, k);
    crate::report::lemma_group_rep(keys, r);
    let rr = group_rep(keys, r);
    if rr < r {
        assert(keys[rr].0 == keys[k].0);
    }
    reveal(leads_group);
}

/// At most one overview entry stands for a group: two entries for one group
/// would name the same file with the same count, and neither would sort first.
proof fn lemma_entries_distinct(fs: Seq<Finding>, files: Seq<FileOverview>, g: int)
    requires
        forall|i: int| 0 <= i < files.len() ==> entry_of(#[trigger] files[i], fs, lead_of(fs, files[i].path@)),
        forall|i: int, j: int| 0 <= i < j < files.len() ==> entry_before(#[trigger] files[i], #[trigger] files[j]),
    ensures
        forall|i: int, j: int|
            0 <= i < files.len() && 0 <= j < files.len() && i != j && lead_of_entry(fs, #[trigger] files[i]) == g
                ==> lead_of_entry(fs, #[trigger] files[j]) != g,
{
    assert forall|i: int, j: int|
        0 <= i < files.len() && 0 <= j < files.len() && i != j && lead_of_entry(fs, #[trigger] files[i]) == g
            implies lead_of_entry(fs, #[trigger] files[j]) != g by {
        if lead_of_entry(fs, files[j]) == g {
            assert(entry_of(files[i], fs, g));
            assert(entry_of(files[j], fs, g));
            lemma_entry_facts(files[i], fs, g);
            lemma_entry_facts(files[j], fs, g);
            crate::paths::lemma_comps_less_irrefl(path_components(files[i].path@));
            if i < j {
                assert(entry_before(files[i], files[j]));
            } else {
                assert(entry_before(files[j], files[i]));
            }
        }
    }
}

/// Sum of the entries' counts, taken over the first `m` findings.
proof fn lemma_members_upto(fs: Seq<Finding>, files: Seq<FileOverview>, m: int)
    requires
        0 <= m <= fs.len(),
        forall|i: int| 0 <= i < files.len() ==> entry_of(#[trigger] files[i], fs, lead_of(fs, files[i].path@)),
        forall|g: int| leads_group(fs, g) ==> exists|i: int| 0 <= i < files.len() && entry_of(#[trigger] files[i], fs, g),
        forall|i: int, j: int| 0 <= i < j < files.len() ==> entry_before(#[trigger] files[i], #[trigger] files[j]),
    ensures
        members_upto(fs, files, m) == m,
    decreases m,
{
    if m == 0 {
        lemma_members_upto_zero(fs, files);
    } else {
        lemma_members_upto(fs, files, m - 1);
        lemma_members_upto_step(fs, files, m);
        let g = group_rep(keys_of(fs), m - 1);
        lemma_rep_leads(fs, m - 1);
        let k = choose|i: int| 0 <= i < files.len() && entry_of(#[trigger] files[i], fs, g);
        lemma_lead_of(files[k], fs, g);
        lemma_entries_distinct(fs, files, g);
        lemma_entries_for_one(fs, files, g, k);
    }
}

proof fn lemma_total_is_members(fs: Seq<Finding>, files: Seq<FileOverview>)
    requires
        forall|i: int| 0 <= i < files.len() ==> entry_of(#[trigger] files[i], fs, lead_of(fs, files[i].path@)),
    ensures
        files_total(files) == members_upto(fs, files, fs.len() as int),
    decreases files.len(),
{
    if files.len() > 0 {
        let p = files.drop_last();
        assert forall|i: int| 0 <= i < p.len() implies entry_of(#[trigger] p[i], fs, lead_of(fs, p[i].path@)) by {
            assert(p[i] == files[i]);
        }
        lemma_total_is_members(fs, p);
        let last = files[files.len() - 1];
        assert(entry_of(last, fs, lead_of(fs, last.path@)));
        reveal(entry_of);
    }
}

/// An overview counts every finding exactly once: the per-file counts add up to
/// the number of findings.
pub proof fn law_overview_counts_every_finding_once(fs: Seq<Finding>, files: Seq<FileOverview>)
    requires
        forall|i: int| 0 <= i < files.len() ==> entry_of(#[trigger] files[i], fs, lead_of(fs, files[i].path@)),
        forall|g: int| leads_group(fs, g) ==> exists|i: int| 0 <= i < files.len() && entry_of(#[trigger] files[i], fs, g),
        forall|i: int, j: int| 0 <= i < j < files.len() ==> entry_before(#[trigger] files[i], #[trigger] files[j]),
    ensures
        files_total(files) == fs.len(),
{
    lemma_members_upto(fs, files, fs.len() as int);
    lemma_total_is_members(fs, files);
}

} // verus!

