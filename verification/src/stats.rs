//! Aggregate statistics of a report: file and finding counters and a per-rule
//! breakdown that lists every registered rule.
use vstd::prelude::*;
use crate::paths::chars_less;
use crate::overview::{leads_group, pad};
use crate::report::{Finding, Report};
use crate::rules::{all_rules, rule_code, rule_name_spec};
use crate::text::decimal;

verus! {

/// Aggregate counters derived from one report.
#[derive(Debug)]
pub struct ScanStats {
    pub files_scanned: usize,
    pub files_with_findings: usize,
    pub clean_files: usize,
    pub total_findings: usize,
    /// Rule code and its number of findings, codes in ascending order.
    pub breakdown: Vec<(String, usize)>,
}

/// Number of the first `n` findings of `fs` that carry `code`.
pub open spec fn code_count(fs: Seq<Finding>, code: Seq<char>, n: int) -> nat
    decreases n,
{
    if n <= 0 {
        0
    } else {
        code_count(fs, code, n - 1) + if fs[n - 1].code@ == code {
            1nat
        } else {
            0nat
        }
    }
}

/// `code` is a registered rule code or the code of one of the first `n` findings.
pub open spec fn listed_code(fs: Seq<Finding>, code: Seq<char>, n: int) -> bool {
    (exists|i: int| 0 <= i < 8 && rule_code(#[trigger] all_rules()[i]) == code) || (exists|k: int|
        0 <= k < n && (#[trigger] fs[k]).code@ == code)
}

/// Number of first findings of their files among the first `n`.
pub open spec fn leader_count(fs: Seq<Finding>, n: int) -> nat
    decreases n,
{
    if n <= 0 {
        0
    } else {
        leader_count(fs, n - 1) + if leads_group(fs, n - 1) {
            1nat
        } else {
            0nat
        }
    }
}

/// The breakdown `b` lists, in strictly ascending code order, exactly the codes
/// [`listed_code`] names, each with its [`code_count`].
pub open spec fn breakdown_of(fs: Seq<Finding>, n: int, b: Seq<(Seq<char>, nat)>) -> bool {
    &&& forall|i: int, j: int| 0 <= i < j < b.len() ==> chars_less(#[trigger] b[i].0, #[trigger] b[j].0)
    &&& forall|i: int| 0 <= i < b.len() ==> listed_code(fs, #[trigger] b[i].0, n) && b[i].1 == code_count(fs, b[i].0, n)
    &&& forall|c: Seq<char>| listed_code(fs, c, n) ==> exists|i: int| 0 <= i < b.len() && #[trigger] b[i].0 == c
}

pub open spec fn breakdown_view(b: Seq<(String, usize)>) -> Seq<(Seq<char>, nat)> {
    b.map_values(|e: (String, usize)| (e.0@, e.1 as nat))
}


proof fn lemma_code_count_zero(fs: Seq<Finding>, c: Seq<char>, n: int)
    requires
        forall|k: int| 0 <= k < n ==> (#[trigger] fs[k]).code@ != c,
    ensures
        code_count(fs, c, n) == 0,
    decreases n,
{
    if n > 0 {
        lemma_code_count_zero(fs, c, n - 1);
    }
}

proof fn lemma_code_count_le(fs: Seq<Finding>, c: Seq<char>, n: int)
    requires
        0 <= n,
    ensures
        code_count(fs, c, n) <= n,
    decreases n,
{
    if n > 0 {
        lemma_code_count_le(fs, c, n - 1);
    }
}

proof fn lemma_registry_sorted()
    ensures
        forall|i: int, j: int| 0 <= i < j < 8 ==> chars_less(rule_code(#[trigger] all_rules()[i]), rule_code(#[trigger] all_rules()[j])),
{
    reveal_strlit("ZR001");
    reveal_strlit("ZR002");
    reveal_strlit("ZR003");
    reveal_strlit("ZR004");
    reveal_strlit("ZR005");
    reveal_strlit("ZR006");
    reveal_strlit("ZR007");
    reveal_strlit("ZR008");
    assert forall|i: int, j: int| 0 <= i < j < 8 implies chars_less(rule_code(#[trigger] all_rules()[i]), rule_code(#[trigger] all_rules()[j])) by {
        let a = rule_code(all_rules()[i]);
        let b = rule_code(all_rules()[j]);
        assert(a.drop_first().drop_first().drop_first().drop_first()[0] < b.drop_first().drop_first().drop_first().drop_first()[0]);
        assert(chars_less(a.drop_first().drop_first().drop_first().drop_first(), b.drop_first().drop_first().drop_first().drop_first()));
        assert(chars_less(a.drop_first().drop_first().drop_first(), b.drop_first().drop_first().drop_first()));
        assert(chars_less(a.drop_first().drop_first(), b.drop_first().drop_first()));
        assert(chars_less(a.drop_first(), b.drop_first()));
    }
}

proof fn lemma_breakdown_bump(fs: Seq<Finding>, k: int, old_b: Seq<(String, usize)>, new_b: Seq<(String, usize)>, i: int)
    requires
        0 <= k < fs.len(),
        breakdown_of(fs, k, breakdown_view(old_b)),
        0 <= i < old_b.len(),
        old_b[i].0@ == fs[k].code@,
        new_b == old_b.update(i, (old_b[i].0, (old_b[i].1 + 1) as usize)),
        old_b[i].1 + 1 <= usize::MAX,
        forall|x: int| 0 <= x < old_b.len() ==> #[trigger] old_b[x].1 <= k,
    ensures
        breakdown_of(fs, k + 1, breakdown_view(new_b)),
        forall|x: int| 0 <= x < new_b.len() ==> #[trigger] new_b[x].1 <= k + 1,
{
    let ob = breakdown_view(old_b);
    let nb = breakdown_view(new_b);
    assert forall|x: int| 0 <= x < ob.len() implies #[trigger] ob[x] == (old_b[x].0@, old_b[x].1 as nat) by {}
    assert forall|x: int| 0 <= x < nb.len() implies #[trigger] nb[x] == (new_b[x].0@, new_b[x].1 as nat) by {}
    assert forall|x: int, y: int| 0 <= x < y < nb.len() implies chars_less(#[trigger] nb[x].0, #[trigger] nb[y].0) by {
        assert(nb[x].0 == ob[x].0 && nb[y].0 == ob[y].0);
    }
    assert forall|x: int| 0 <= x < nb.len() implies listed_code(fs, #[trigger] nb[x].0, k + 1) && nb[x].1 == code_count(fs, nb[x].0, k + 1) by {
        assert(nb[x].0 == ob[x].0);
        assert(listed_code(fs, ob[x].0, k));
        if x != i {
            if ob[x].0 == fs[k].code@ {
                if x < i {
                    assert(chars_less(ob[x].0, ob[i].0));
                } else {
                    assert(chars_less(ob[i].0, ob[x].0));
                }
                crate::paths::lemma_chars_less_irrefl(ob[x].0);
            }
        }
    }
    assert forall|c: Seq<char>| #[trigger] listed_code(fs, c, k + 1) implies exists|x: int| 0 <= x < nb.len() && #[trigger] nb[x].0 == c by {
        if listed_code(fs, c, k) {
            let x = choose|x: int| 0 <= x < ob.len() && #[trigger] ob[x].0 == c;
            assert(nb[x].0 == c);
        } else {
            if exists|j: int| 0 <= j < k + 1 && (#[trigger] fs[j]).code@ == c {
                let j = choose|j: int| 0 <= j < k + 1 && (#[trigger] fs[j]).code@ == c;
                assert(j == k);
                assert(nb[i].0 == c);
            }
        }
    }
}

proof fn lemma_breakdown_insert(fs: Seq<Finding>, k: int, old_b: Seq<(String, usize)>, new_b: Seq<(String, usize)>, p: int)
    requires
        0 <= k < fs.len(),
        breakdown_of(fs, k, breakdown_view(old_b)),
        0 <= p <= old_b.len(),
        forall|x: int| 0 <= x < old_b.len() ==> #[trigger] old_b[x].0@ != fs[k].code@,
        forall|q: int| 0 <= q < p ==> chars_less(#[trigger] old_b[q].0@, fs[k].code@),
        p < old_b.len() ==> chars_less(fs[k].code@, old_b[p].0@),
        new_b.len() == old_b.len() + 1,
        new_b[p].0@ == fs[k].code@,
        new_b[p].1 == 1,
        forall|x: int| 0 <= x < p ==> new_b[x] == old_b[x],
        forall|x: int| p < x < new_b.len() ==> new_b[x] == old_b[x - 1],
        forall|x: int| 0 <= x < old_b.len() ==> #[trigger] old_b[x].1 <= k,
    ensures
        breakdown_of(fs, k + 1, breakdown_view(new_b)),
        forall|x: int| 0 <= x < new_b.len() ==> #[trigger] new_b[x].1 <= k + 1,
{
    let ob = breakdown_view(old_b);
    let nb = breakdown_view(new_b);
    let c0 = fs[k].code@;
    assert forall|x: int| 0 <= x < ob.len() implies #[trigger] ob[x] == (old_b[x].0@, old_b[x].1 as nat) by {}
    assert forall|x: int| 0 <= x < nb.len() implies #[trigger] nb[x] == (new_b[x].0@, new_b[x].1 as nat) by {}
    assert(!listed_code(fs, c0, k)) by {
        if listed_code(fs, c0, k) {
            let x = choose|x: int| 0 <= x < ob.len() && #[trigger] ob[x].0 == c0;
            assert(old_b[x].0@ == c0);
        }
    }
    assert forall|j: int| 0 <= j < k implies (#[trigger] fs[j]).code@ != c0 by {
        if fs[j].code@ == c0 {
            assert(listed_code(fs, c0, k));
        }
    }
    lemma_code_count_zero(fs, c0, k);
    assert forall|x: int, y: int| 0 <= x < y < nb.len() implies chars_less(#[trigger] nb[x].0, #[trigger] nb[y].0) by {
        if y < p {
            assert(nb[x].0 == ob[x].0 && nb[y].0 == ob[y].0);
        } else if y == p {
            assert(nb[x].0 == ob[x].0);
        } else if x < p {
            assert(nb[x].0 == ob[x].0 && nb[y].0 == ob[y - 1].0);
        } else if x == p {
            assert(nb[y].0 == ob[y - 1].0);
            if y - 1 > p {
                crate::paths::lemma_chars_less_trans(c0, ob[p].0, ob[y - 1].0);
            }
        } else {
            assert(nb[x].0 == ob[x - 1].0 && nb[y].0 == ob[y - 1].0);
        }
    }
    assert forall|x: int| 0 <= x < nb.len() implies listed_code(fs, #[trigger] nb[x].0, k + 1) && nb[x].1 == code_count(fs, nb[x].0, k + 1) by {
        if x == p {
            assert(fs[k].code@ == c0);
        } else {
            let y = if x < p { x } else { x - 1 };
            assert(nb[x] == ob[y]);
            assert(listed_code(fs, ob[y].0, k));
            assert(ob[y].0 != c0);
        }
    }
    assert forall|c: Seq<char>| #[trigger] listed_code(fs, c, k + 1) implies exists|x: int| 0 <= x < nb.len() && #[trigger] nb[x].0 == c by {
        if listed_code(fs, c, k) {
            let y = choose|y: int| 0 <= y < ob.len() && #[trigger] ob[y].0 == c;
            if y < p {
                assert(nb[y].0 == c);
            } else {
                assert(nb[y + 1].0 == c);
            }
        } else {
            if exists|j: int| 0 <= j < k + 1 && (#[trigger] fs[j]).code@ == c {
                let j = choose|j: int| 0 <= j < k + 1 && (#[trigger] fs[j]).code@ == c;
                assert(j == k);
                assert(nb[p].0 == c);
            }
        }
    }
    assert forall|x: int| 0 <= x < new_b.len() implies #[trigger] new_b[x].1 <= k + 1 by {
        if x < p {
            assert(new_b[x] == old_b[x]);
        } else if x > p {
            assert(new_b[x] == old_b[x - 1]);
        }
    }
}

/// Where `code` belongs in the sorted breakdown `b`: `Ok(i)` when `b[i]` holds it,
/// otherwise `Err(p)` with `p` the first entry whose code sorts after it.
fn locate(b: &Vec<(String, usize)>, code: &str) -> (r: Result<usize, usize>)
    requires
        forall|i: int, j: int| 0 <= i < j < b@.len() ==> chars_less(#[trigger] b@[i].0@, #[trigger] b@[j].0@),
    ensures
        r matches Ok(i) ==> i < b@.len() && b@[i as int].0@ == code@,
        r matches Err(p) ==> p <= b@.len() && (forall|i: int| 0 <= i < b@.len() ==> #[trigger] b@[i].0@ != code@)
            && (forall|q: int| 0 <= q < p ==> chars_less(#[trigger] b@[q].0@, code@))
            && (p < b@.len() ==> chars_less(code@, b@[p as int].0@)),
{
    let cs = crate::text::str_chars(code);
    let mut i: usize = 0;
    while i < b.len()
        invariant
            forall|x: int, y: int| 0 <= x < y < b@.len() ==> chars_less(#[trigger] b@[x].0@, #[trigger] b@[y].0@),
            cs@ == code@,
            0 <= i <= b@.len(),
            forall|q: int| 0 <= q < i ==> chars_less(#[trigger] b@[q].0@, code@),
        decreases b.len() - i,
    {
        let entry = crate::text::str_chars(b[i].0.as_str());
        if crate::text::chars_eq(&entry, &cs) {
            return Ok(i);
        }
        if crate::paths::chars_less_exec(&entry, &cs) {
            i = i + 1;
        } else {
            proof {
                crate::paths::lemma_chars_less_total(b@[i as int].0@, code@);
                assert forall|x: int| 0 <= x < b@.len() implies #[trigger] b@[x].0@ != code@ by {
                    if x < i {
                        assert(chars_less(b@[x].0@, code@));
                        crate::paths::lemma_chars_less_irrefl(code@);
                    } else if x > i {
                        assert(chars_less(b@[i as int].0@, b@[x].0@));
                        if b@[x].0@ == code@ {
                            crate::paths::lemma_chars_less_irrefl(code@);
                            crate::paths::lemma_chars_less_trans(code@, b@[i as int].0@, code@);
                        }
                    }
                }
            }
            return Err(i);
        }
    }
    proof {
        assert forall|x: int| 0 <= x < b@.len() implies #[trigger] b@[x].0@ != code@ by {
            assert(chars_less(b@[x].0@, code@));
            crate::paths::lemma_chars_less_irrefl(code@);
        }
    }
    Err(i)
}

/// Counts the report's findings per rule code (every registered code listed, at zero
/// when it has none) and per file.
pub fn compute_stats(report: &Report) -> (r: ScanStats)
    ensures
        r.files_scanned == report.files_discovered,
        r.total_findings == report.findings@.len(),
        r.files_with_findings == leader_count(report.findings@, report.findings@.len() as int),
        r.clean_files == (if report.files_discovered >= r.files_with_findings {
            report.files_discovered - r.files_with_findings
        } else {
            0
        }),
        breakdown_of(report.findings@, report.findings@.len() as int, breakdown_view(r.breakdown@)),
{
    let fs = &report.findings;
    let rules = crate::rules::all();
    let mut b: Vec<(String, usize)> = Vec::new();
    let mut i: usize = 0;
    proof {
        lemma_registry_sorted();
    }
    while i < rules.len()
        invariant
            rules@ == all_rules(),
            forall|x: int, y: int| 0 <= x < y < 8 ==> chars_less(rule_code(#[trigger] all_rules()[x]), rule_code(#[trigger] all_rules()[y])),
            0 <= i <= 8,
            b@.len() == i,
            forall|x: int| 0 <= x < i ==> (#[trigger] b@[x]).0@ == rule_code(all_rules()[x]) && b@[x].1 == 0,
        decreases rules.len() - i,
    {
        b.push((crate::text::string_of(&crate::text::str_chars(rules[i].code())), 0));
        i = i + 1;
    }
    proof {
        let bv = breakdown_view(b@);
        assert forall|x: int| 0 <= x < bv.len() implies #[trigger] bv[x] == (b@[x].0@, b@[x].1 as nat) by {}
        assert forall|x: int, y: int| 0 <= x < y < bv.len() implies chars_less(#[trigger] bv[x].0, #[trigger] bv[y].0) by {
            assert(bv[x].0 == rule_code(all_rules()[x]));
            assert(bv[y].0 == rule_code(all_rules()[y]));
        }
        assert forall|c: Seq<char>| #[trigger] listed_code(fs@, c, 0) implies exists|x: int| 0 <= x < b@.len() && #[trigger] b@[x].0@ == c by {
            let x = choose|x: int| 0 <= x < 8 && rule_code(#[trigger] all_rules()[x]) == c;
            assert(b@[x].0@ == c);
        }
        assert forall|x: int| 0 <= x < bv.len() implies listed_code(fs@, #[trigger] bv[x].0, 0) && bv[x].1 == code_count(fs@, bv[x].0, 0) by {
            assert(rule_code(all_rules()[x]) == bv[x].0);
        }
        assert forall|c: Seq<char>| #[trigger] listed_code(fs@, c, 0) implies exists|x: int| 0 <= x < bv.len() && #[trigger] bv[x].0 == c by {
            let x = choose|x: int| 0 <= x < 8 && rule_code(#[trigger] all_rules()[x]) == c;
            assert(bv[x].0 == c);
        }
        assert(breakdown_of(fs@, 0, breakdown_view(b@)));
    }
    let mut k: usize = 0;
    while k < fs.len()
        invariant
            0 <= k <= fs@.len(),
            breakdown_of(fs@, k as int, breakdown_view(b@)),
            forall|x: int| 0 <= x < b@.len() ==> #[trigger] b@[x].1 <= k,
        decreases fs.len() - k,
    {
        proof {
            assert forall|x: int, y: int| 0 <= x < y < b@.len() implies chars_less(#[trigger] b@[x].0@, #[trigger] b@[y].0@) by {
                assert(breakdown_view(b@)[x].0 == b@[x].0@);
                assert(breakdown_view(b@)[y].0 == b@[y].0@);
            }
        }
        match locate(&b, fs[k].code) {
            Ok(i) => {
                let ghost old_b = b@;
                let c = b[i].1;
                let name = b[i].0.clone();
                proof {
                    assert(c <= k);
                }
                b[i] = (name, c + 1);
                proof {
                    assert(old_b[i as int].0@ == fs@[k as int].code@);
                    assert(b@ == old_b.update(i as int, (old_b[i as int].0, (old_b[i as int].1 + 1) as usize)));
                    lemma_breakdown_bump(fs@, k as int, old_b, b@, i as int);
                }
            },
            Err(p) => {
                let ghost old_b = b@;
                let name = crate::text::string_of(&crate::text::str_chars(fs[k].code));
                b.insert(p, (name, 1));
                proof {
                    assert(b@ == old_b.insert(p as int, (name, 1usize)));
                    lemma_breakdown_insert(fs@, k as int, old_b, b@, p as int);
                }
            },
        }
        k = k + 1;
    }
    let cache = crate::report::file_components(fs);
    let reps = crate::report::group_reps(fs, &cache);
    let mut files_with: usize = 0;
    let mut j: usize = 0;
    while j < fs.len()
        invariant
            reps@.len() == fs@.len(),
            forall|x: int| 0 <= x < fs@.len() ==> #[trigger] reps@[x] as int == crate::report::group_rep(crate::report::keys_of(fs@), x),
            0 <= j <= fs@.len(),
            files_with == leader_count(fs@, j as int),
            files_with <= j,
        decreases fs.len() - j,
    {
        proof {
            reveal(crate::overview::leads_group);
        }
        if reps[j] == j {
            files_with = files_with + 1;
        }
        j = j + 1;
    }
    let clean = if report.files_discovered >= files_with {
        report.files_discovered - files_with
    } else {
        0
    };
    ScanStats {
        files_scanned: report.files_discovered,
        files_with_findings: files_with,
        clean_files: clean,
        total_findings: fs.len(),
        breakdown: b,
    }
}


/// One counter row of the summary block.
pub open spec fn counter_row(label: Seq<char>, n: nat) -> Seq<char> {
    "  "@ + pad(label, 20) + "  "@ + decimal(n) + "\n"@
}

/// The label of a breakdown row: `CODE name:`.
pub open spec fn rule_label(code: Seq<char>) -> Seq<char> {
    code + " "@ + rule_name_spec(code) + ":"@
}

/// Widest breakdown label among `b`.
pub open spec fn label_width(b: Seq<(Seq<char>, nat)>) -> int
    decreases b.len(),
{
    if b.len() == 0 {
        0
    } else {
        let w = label_width(b.drop_last());
        let l = rule_label(b.last().0).len() as int;
        if l > w {
            l
        } else {
            w
        }
    }
}

/// The breakdown rows of the first `n` entries.
pub open spec fn breakdown_rows(b: Seq<(Seq<char>, nat)>, n: int, w: int) -> Seq<char>
    decreases n,
{
    if n <= 0 {
        Seq::empty()
    } else {
        breakdown_rows(b, n - 1, w) + "  "@ + pad(rule_label(b[n - 1].0), w) + "  "@ + decimal(b[n - 1].1)
            + "\n"@
    }
}

/// The statistics as text: four aligned counters, then one aligned row per rule code.
pub open spec fn stats_text(st: ScanStats) -> Seq<char> {
    "Scan statistics:\n"@ + counter_row("Files scanned:"@, st.files_scanned as nat) + counter_row(
        "Files with findings:"@,
        st.files_with_findings as nat,
    ) + counter_row("Clean files:"@, st.clean_files as nat) + counter_row(
        "Total findings:"@,
        st.total_findings as nat,
    ) + "\n"@ + "Breakdown by rule:\n"@ + breakdown_rows(
        breakdown_view(st.breakdown@),
        st.breakdown@.len() as int,
        label_width(breakdown_view(st.breakdown@)),
    )
}

fn push_counter_row(out: &mut Vec<char>, label: &str, n: usize)
    ensures
        final(out)@ == old(out)@ + counter_row(label@, n as nat),
{
    let ghost start = out@;
    crate::text::push_str(out, "  ");
    let l = crate::text::str_chars(label);
    push_pad(out, &l, 20);
    crate::text::push_str(out, "  ");
    crate::text::push_decimal(out, n);
    crate::text::push_str(out, "\n");
    assert(out@ =~= start + counter_row(label@, n as nat));
}

/// Appends `s` left-aligned in a field of width `w`.
fn push_pad(out: &mut Vec<char>, s: &[char], w: usize)
    ensures
        final(out)@ == old(out)@ + pad(s@, w as int),
{
    crate::text::push_all(out, s);
    let mut n: usize = s.len();
    let ghost start = out@;
    while n < w
        invariant
            s@.len() <= n <= w || (n == s@.len() && n >= w),
            out@ == start + crate::overview::spaces(n - s@.len()),
        decreases w - n,
    {
        out.push(' ');
        n = n + 1;
        assert(out@ =~= start + crate::overview::spaces(n - s@.len()));
    }
    assert(out@ =~= old(out)@ + pad(s@, w as int));
}

/// The statistics as an aligned text block.
pub fn format_stats_text(stats: &ScanStats) -> (r: String)
    ensures
        r@ == stats_text(*stats),
{
    let mut out: Vec<char> = Vec::new();
    crate::text::push_str(&mut out, "Scan statistics:\n");
    push_counter_row(&mut out, "Files scanned:", stats.files_scanned);
    push_counter_row(&mut out, "Files with findings:", stats.files_with_findings);
    push_counter_row(&mut out, "Clean files:", stats.clean_files);
    push_counter_row(&mut out, "Total findings:", stats.total_findings);
    crate::text::push_str(&mut out, "\n");
    crate::text::push_str(&mut out, "Breakdown by rule:\n");
    let b = &stats.breakdown;
    let ghost bv = breakdown_view(b@);
    let mut labels: Vec<Vec<char>> = Vec::new();
    let mut w: usize = 0;
    let mut i: usize = 0;
    while i < b.len()
        invariant
            bv == breakdown_view(b@),
            0 <= i <= b@.len(),
            labels@.len() == i,
            forall|j: int| 0 <= j < i ==> #[trigger] labels@[j]@ == rule_label(bv[j].0),
            w as int == label_width(bv.take(i as int)),
        decreases b.len() - i,
    {
        proof {
            assert(bv.take(i + 1).drop_last() =~= bv.take(i as int));
            assert(bv.take(i + 1).last() == bv[i as int]);
            assert(bv[i as int].0 == b@[i as int].0@);
        }
        let mut label = crate::text::str_chars(b[i].0.as_str());
        crate::text::push_str(&mut label, " ");
        crate::text::push_str(&mut label, crate::rules::rule_name_for(b[i].0.as_str()));
        crate::text::push_str(&mut label, ":");
        if label.len() > w {
            w = label.len();
        }
        labels.push(label);
        i = i + 1;
    }
    proof {
        assert(bv.take(b@.len() as int) =~= bv);
    }
    let ghost head = out@;
    let mut k: usize = 0;
    while k < b.len()
        invariant
            bv == breakdown_view(b@),
            0 <= k <= b@.len(),
            labels@.len() == b@.len(),
            forall|j: int| 0 <= j < b@.len() ==> #[trigger] labels@[j]@ == rule_label(bv[j].0),
            w as int == label_width(bv),
            out@ == head + breakdown_rows(bv, k as int, w as int),
        decreases b.len() - k,
    {
        proof {
            assert(bv[k as int].1 == b@[k as int].1 as nat);
        }
        crate::text::push_str(&mut out, "  ");
        push_pad(&mut out, &labels[k], w);
        crate::text::push_str(&mut out, "  ");
        crate::text::push_decimal(&mut out, b[k].1);
        crate::text::push_str(&mut out, "\n");
        proof {
            assert(out@ =~= head + breakdown_rows(bv, k + 1, w as int));
        }
        k = k + 1;
    }
    proof {
        assert(out@ =~= stats_text(*stats));
    }
    crate::text::string_of(&out)
}

impl ScanStats {
    /// The count recorded for `code` in the breakdown, if the code is listed.
    pub fn breakdown_get(&self, code: &str) -> (r: Option<usize>)
        ensures
            r matches Some(n) ==> exists|i: int| 0 <= i < self.breakdown@.len() && #[trigger] self.breakdown@[i].0@ == code@ && self.breakdown@[i].1 == n,
            r is None ==> forall|i: int| 0 <= i < self.breakdown@.len() ==> #[trigger] self.breakdown@[i].0@ != code@,
    {
        let cs = crate::text::str_chars(code);
        let mut i: usize = 0;
        while i < self.breakdown.len()
            invariant
                cs@ == code@,
                0 <= i <= self.breakdown@.len(),
                forall|j: int| 0 <= j < i ==> #[trigger] self.breakdown@[j].0@ != code@,
            decreases self.breakdown.len() - i,
        {
            if crate::text::eq_str(&cs, self.breakdown[i].0.as_str()) {
                return Some(self.breakdown[i].1);
            }
            i = i + 1;
        }
        None
    }
}

/// Sum of the counts of a breakdown.
pub open spec fn breakdown_total(b: Seq<(Seq<char>, nat)>) -> nat
    decreases b.len(),
{
    if b.len() == 0 {
        0
    } else {
        breakdown_total(b.drop_last()) + b.last().1
    }
}

/// Sum over the codes of `b` of their counts among the first `m` findings.
spec fn counts_upto(fs: Seq<Finding>, b: Seq<(Seq<char>, nat)>, m: int) -> nat
    decreases b.len(),
{
    if b.len() == 0 {
        0
    } else {
        counts_upto(fs, b.drop_last(), m) + code_count(fs, b.last().0, m)
    }
}

/// Number of entries of `b` whose code is `c`.
spec fn entries_with(b: Seq<(Seq<char>, nat)>, c: Seq<char>) -> nat
    decreases b.len(),
{
    if b.len() == 0 {
        0
    } else {
        entries_with(b.drop_last(), c) + if b.last().0 == c {
            1nat
        } else {
            0nat
        }
    }
}

proof fn lemma_counts_step(fs: Seq<Finding>, b: Seq<(Seq<char>, nat)>, m: int)
    requires
        0 < m <= fs.len(),
    ensures
        counts_upto(fs, b, m) == counts_upto(fs, b, m - 1) + entries_with(b, fs[m - 1].code@),
    decreases b.len(),
{
    if b.len() > 0 {
        lemma_counts_step(fs, b.drop_last(), m);
    }
}

proof fn lemma_entries_with_none(b: Seq<(Seq<char>, nat)>, c: Seq<char>)
    requires
        forall|i: int| 0 <= i < b.len() ==> #[trigger] b[i].0 != c,
    ensures
        entries_with(b, c) == 0,
    decreases b.len(),
{
    if b.len() > 0 {
        lemma_entries_with_none(b.drop_last(), c);
    }
}

proof fn lemma_entries_with_one(b: Seq<(Seq<char>, nat)>, c: Seq<char>, k: int)
    requires
        0 <= k < b.len(),
        b[k].0 == c,
        forall|i: int, j: int| 0 <= i < j < b.len() ==> chars_less(#[trigger] b[i].0, #[trigger] b[j].0),
    ensures
        entries_with(b, c) == 1,
    decreases b.len(),
{
    let p = b.drop_last();
    if k == b.len() - 1 {
        assert forall|i: int| 0 <= i < p.len() implies #[trigger] p[i].0 != c by {
            assert(chars_less(b[i].0, b[k].0));
            crate::paths::lemma_chars_less_irrefl(c);
        }
        lemma_entries_with_none(p, c);
    } else {
        assert(chars_less(b[k].0, b[b.len() - 1].0));
        crate::paths::lemma_chars_less_irrefl(c);
        lemma_entries_with_one(p, c, k);
    }
}

proof fn lemma_counts_upto(fs: Seq<Finding>, b: Seq<(Seq<char>, nat)>, m: int)
    requires
        0 <= m <= fs.len(),
        breakdown_of(fs, fs.len() as int, b),
    ensures
        counts_upto(fs, b, m) == m,
    decreases m,
{
    if m == 0 {
        lemma_counts_zero(fs, b);
    } else {
        lemma_counts_upto(fs, b, m - 1);
        lemma_counts_step(fs, b, m);
        let c = fs[m - 1].code@;
        assert(listed_code(fs, c, fs.len() as int));
        let k = choose|k: int| 0 <= k < b.len() && #[trigger] b[k].0 == c;
        lemma_entries_with_one(b, c, k);
    }
}

proof fn lemma_counts_zero(fs: Seq<Finding>, b: Seq<(Seq<char>, nat)>)
    ensures
        counts_upto(fs, b, 0) == 0,
    decreases b.len(),
{
    if b.len() > 0 {
        lemma_counts_zero(fs, b.drop_last());
    }
}

proof fn lemma_total_is_counts(fs: Seq<Finding>, b: Seq<(Seq<char>, nat)>)
    requires
        forall|i: int| 0 <= i < b.len() ==> (#[trigger] b[i]).1 == code_count(fs, b[i].0, fs.len() as int),
    ensures
        breakdown_total(b) == counts_upto(fs, b, fs.len() as int),
    decreases b.len(),
{
    if b.len() > 0 {
        let p = b.drop_last();
        assert forall|i: int| 0 <= i < p.len() implies (#[trigger] p[i]).1 == code_count(fs, p[i].0, fs.len() as int) by {
            assert(p[i] == b[i]);
        }
        lemma_total_is_counts(fs, p);
        assert(b[b.len() - 1] == b.last());
    }
}

/// The per-rule counts add up to the number of findings: every finding is counted
/// once, under its own code.
pub proof fn law_breakdown_adds_up_to_total(fs: Seq<Finding>, b: Seq<(Seq<char>, nat)>)
    requires
        breakdown_of(fs, fs.len() as int, b),
    ensures
        breakdown_total(b) == fs.len(),
{
    lemma_counts_upto(fs, b, fs.len() as int);
    lemma_total_is_counts(fs, b);
}

} // verus!

