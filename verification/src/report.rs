//! Findings and the report of a lint run: the summary line, the exit code, and the
//! text rendering that groups findings by file.
use vstd::prelude::*;
use crate::paths::{comps_less, comps_match, display_spec, path_components};
use crate::text::decimal;
use crate::guide::REPORT_FOOTER;

verus! {

/// Severity of a finding.
#[derive(Clone, Copy, PartialEq, Eq, Structural, Debug)]
pub enum Severity {
    Warning,
    Error,
}

pub open spec fn severity_name(s: Severity) -> Seq<char> {
    match s {
        Severity::Warning => "warning"@,
        Severity::Error => "error"@,
    }
}

impl Severity {
    /// Lowercase name used by the JSON and SARIF emitters.
    pub fn as_str(self) -> (r: &'static str)
        ensures
            r@ == severity_name(self),
    {
        match self {
            Severity::Warning => "warning",
            Severity::Error => "error",
        }
    }
}

impl Default for Severity {
    fn default() -> (r: Self)
        ensures
            r == Severity::Warning,
    {
        Severity::Warning
    }
}

/// A single lint finding.
#[derive(Debug)]
pub struct Finding {
    /// Rule identifier, e.g. `"ZR001"`.
    pub code: &'static str,
    /// Human-readable message.
    pub message: String,
    /// File the finding applies to.
    pub file: String,
    /// 1-indexed line number.
    pub line: usize,
    /// 1-indexed column number.
    pub column: usize,
    pub severity: Severity,
}

impl Finding {
    /// An equal copy.
    pub fn copied(&self) -> (r: Finding)
        ensures
            r == *self,
    {
        Finding {
            code: self.code,
            message: self.message.clone(),
            file: self.file.clone(),
            line: self.line,
            column: self.column,
            severity: self.severity,
        }
    }
}

/// Aggregated output of a lint run.
#[derive(Debug)]
pub struct Report {
    pub findings: Vec<Finding>,
    pub files_discovered: usize,
    /// Every discovered file, sorted by path.
    pub discovered_files: Vec<String>,
}

impl Default for Report {
    fn default() -> (r: Self)
        ensures
            r.findings@.len() == 0,
            r.files_discovered == 0,
            r.discovered_files@.len() == 0,
    {
        Report { findings: Vec::new(), files_discovered: 0, discovered_files: Vec::new() }
    }
}

/// `"N findings in M files discovered."`
pub open spec fn summary_spec(n: nat, m: nat) -> Seq<char> {
    decimal(n) + " findings in "@ + decimal(m) + " files discovered."@
}

/// Sort key of a finding: the components of its file, then line, then column.
pub open spec fn finding_key(f: Finding) -> (Seq<(int, Seq<char>)>, int, int) {
    (path_components(f.file@), f.line as int, f.column as int)
}

/// Strict order of sort keys: by file, then line, then column.
pub open spec fn key_less(a: (Seq<(int, Seq<char>)>, int, int), b: (Seq<(int, Seq<char>)>, int, int)) -> bool {
    comps_less(a.0, b.0) || (a.0 == b.0 && (a.1 < b.1 || (a.1 == b.1 && a.2 < b.2)))
}

pub proof fn lemma_key_less_irrefl(a: (Seq<(int, Seq<char>)>, int, int))
    ensures
        !key_less(a, a),
{
    crate::paths::lemma_comps_less_irrefl(a.0);
}

pub proof fn lemma_key_less_trans(
    a: (Seq<(int, Seq<char>)>, int, int),
    b: (Seq<(int, Seq<char>)>, int, int),
    c: (Seq<(int, Seq<char>)>, int, int),
)
    requires
        key_less(a, b),
        key_less(b, c),
    ensures
        key_less(a, c),
{
    if comps_less(a.0, b.0) && comps_less(b.0, c.0) {
        crate::paths::lemma_comps_less_trans(a.0, b.0, c.0);
    }
    if a.0 == c.0 && comps_less(a.0, b.0) && comps_less(b.0, c.0) {
        crate::paths::lemma_comps_less_trans(a.0, b.0, a.0);
        crate::paths::lemma_comps_less_irrefl(a.0);
    }
}

/// The keys of `fs`, in order.
pub open spec fn keys_of(fs: Seq<Finding>) -> Seq<(Seq<(int, Seq<char>)>, int, int)> {
    fs.map_values(|f: Finding| finding_key(f))
}

/// `ord` lists the indices of `keys` once each, sorted by key, equal keys in their
/// original order: the stable sort.
pub open spec fn stably_sorted(keys: Seq<(Seq<(int, Seq<char>)>, int, int)>, ord: Seq<int>) -> bool {
    sorted_prefix(keys, keys.len() as int, ord)
}

/// `ord` is the stable sort of the first `n` indices of `keys`.
pub open spec fn sorted_prefix(keys: Seq<(Seq<(int, Seq<char>)>, int, int)>, n: int, ord: Seq<int>) -> bool {
    &&& ord.len() == n
    &&& forall|i: int| 0 <= i < ord.len() ==> 0 <= #[trigger] ord[i] < n
    &&& forall|i: int, j: int| 0 <= i < j < ord.len() ==> ord[i] != ord[j]
    &&& forall|i: int, j: int|
        0 <= i < j < ord.len() ==> !key_less(#[trigger] keys[ord[j]], #[trigger] keys[ord[i]])
    &&& forall|i: int, j: int|
        0 <= i < j < ord.len() && keys[ord[i]] == keys[ord[j]] ==> ord[i] < ord[j]
}


proof fn lemma_insert_sorted(
    keys: Seq<(Seq<(int, Seq<char>)>, int, int)>,
    ord: Seq<int>,
    k: int,
    p: int,
)
    requires
        0 <= k < keys.len(),
        sorted_prefix(keys, k, ord),
        0 <= p <= ord.len(),
        forall|q: int| 0 <= q < p ==> !key_less(keys[k], #[trigger] keys[ord[q]]),
        p < ord.len() ==> key_less(keys[k], keys[ord[p]]),
    ensures
        sorted_prefix(keys, k + 1, ord.insert(p, k)),
{
    let o2 = ord.insert(p, k);
    assert(o2.len() == k + 1);
    assert forall|i: int| 0 <= i < o2.len() implies 0 <= #[trigger] o2[i] < k + 1 by {
        if i < p {
            assert(o2[i] == ord[i]);
        } else if i > p {
            assert(o2[i] == ord[i - 1]);
        }
    }
    assert forall|i: int, j: int| 0 <= i < j < o2.len() implies o2[i] != o2[j] by {
        if i < p && j > p {
            assert(o2[j] == ord[j - 1]);
        } else if i > p {
            assert(o2[i] == ord[i - 1]);
            assert(o2[j] == ord[j - 1]);
        }
    }
    assert forall|i: int, j: int| 0 <= i < j < o2.len() implies !key_less(
        #[trigger] keys[o2[j]],
        #[trigger] keys[o2[i]],
    ) && (keys[o2[i]] == keys[o2[j]] ==> o2[i] < o2[j]) by {
        if j < p {
            assert(o2[i] == ord[i] && o2[j] == ord[j]);
        } else if j == p {
            assert(o2[i] == ord[i]);
            assert(!key_less(keys[k], keys[ord[i]]));
        } else if i < p {
            assert(o2[i] == ord[i] && o2[j] == ord[j - 1]);
        } else if i == p {
            assert(o2[j] == ord[j - 1]);
            let x = ord[j - 1];
            assert(key_less(keys[k], keys[ord[p]]));
            if key_less(keys[x], keys[k]) {
                lemma_key_less_trans(keys[x], keys[k], keys[ord[p]]);
                if j - 1 == p {
                    lemma_key_less_irrefl(keys[x]);
                }
            }
            if keys[k] == keys[x] {
                if j - 1 == p {
                    lemma_key_less_irrefl(keys[x]);
                }
            }
        } else {
            assert(o2[i] == ord[i - 1] && o2[j] == ord[j - 1]);
        }
    }
}


/// Components of every finding's file.
pub(crate) fn file_components(fs: &Vec<Finding>) -> (r: Vec<Vec<(u8, Vec<char>)>>)
    ensures
        r@.len() == fs@.len(),
        forall|i: int| 0 <= i < fs@.len() ==> comps_match(#[trigger] r@[i]@, path_components(fs@[i].file@)),
{
    let mut out: Vec<Vec<(u8, Vec<char>)>> = Vec::new();
    let mut i: usize = 0;
    while i < fs.len()
        invariant
            0 <= i <= fs@.len(),
            out@.len() == i,
            forall|j: int| 0 <= j < i ==> comps_match(#[trigger] out@[j]@, path_components(fs@[j].file@)),
        decreases fs.len() - i,
    {
        let cs = crate::text::str_chars(fs[i].file.as_str());
        out.push(crate::paths::components_of(&cs));
        i = i + 1;
    }
    out
}

/// `r` is `fs` rearranged in the stable order sorting by file (component-wise),
/// line and column.
pub open spec fn sorted_as(fs: Seq<Finding>, r: Seq<Finding>) -> bool {
    exists|ord: Seq<int>|
        #[trigger] stably_sorted(keys_of(fs), ord) && r.len() == ord.len() && forall|i: int|
            0 <= i < ord.len() ==> r[i] == fs[ord[i]]
}

/// The findings of a run in report order: sorted by file (component by
/// component), then line, then column; findings with equal keys keep their order.
pub fn sort_findings(fs: &Vec<Finding>) -> (r: Vec<Finding>)
    ensures
        sorted_as(fs@, r@),
{
    let cache = file_components(fs);
    let ord = sort_order(fs, &cache);
    let ghost o = ord@.map_values(|x: usize| x as int);
    let mut out: Vec<Finding> = Vec::new();
    let mut i: usize = 0;
    while i < ord.len()
        invariant
            o == ord@.map_values(|x: usize| x as int),
            stably_sorted(keys_of(fs@), o),
            i <= ord@.len(),
            out@.len() == i,
            forall|j: int| 0 <= j < i ==> out@[j] == fs@[o[j]],
        decreases ord.len() - i,
    {
        proof {
            assert(o[i as int] == ord@[i as int] as int);
            assert(keys_of(fs@).len() == fs@.len());
        }
        out.push(fs[ord[i]].copied());
        i = i + 1;
    }
    proof {
        assert(stably_sorted(keys_of(fs@), o));
    }
    out
}

/// Whether finding `i` sorts strictly before finding `j`.
fn key_before(fs: &Vec<Finding>, cache: &Vec<Vec<(u8, Vec<char>)>>, i: usize, j: usize) -> (r: bool)
    requires
        cache@.len() == fs@.len(),
        forall|x: int| 0 <= x < fs@.len() ==> comps_match(#[trigger] cache@[x]@, path_components(fs@[x].file@)),
        i < fs@.len(),
        j < fs@.len(),
    ensures
        r == key_less(finding_key(fs@[i as int]), finding_key(fs@[j as int])),
{
    let ghost ci = path_components(fs@[i as int].file@);
    let ghost cj = path_components(fs@[j as int].file@);
    assert(comps_match(cache@[i as int]@, ci));
    assert(comps_match(cache@[j as int]@, cj));
    if crate::paths::comps_less_exec(&cache[i], &cache[j], Ghost(ci), Ghost(cj)) {
        return true;
    }
    if crate::paths::comps_less_exec(&cache[j], &cache[i], Ghost(cj), Ghost(ci)) {
        proof {
            crate::paths::lemma_comps_less_irrefl(ci);
        }
        return false;
    }
    proof {
        crate::paths::lemma_comps_less_total(ci, cj);
    }
    fs[i].line < fs[j].line || (fs[i].line == fs[j].line && fs[i].column < fs[j].column)
}

/// The stable sort of the findings by file, line and column, as indices.
fn sort_order(fs: &Vec<Finding>, cache: &Vec<Vec<(u8, Vec<char>)>>) -> (r: Vec<usize>)
    requires
        cache@.len() == fs@.len(),
        forall|x: int| 0 <= x < fs@.len() ==> comps_match(#[trigger] cache@[x]@, path_components(fs@[x].file@)),
    ensures
        stably_sorted(keys_of(fs@), r@.map_values(|x: usize| x as int)),
{
    let ghost keys = keys_of(fs@);
    let mut ord: Vec<usize> = Vec::new();
    let mut k: usize = 0;
    while k < fs.len()
        invariant
            keys == keys_of(fs@),
            cache@.len() == fs@.len(),
            forall|x: int| 0 <= x < fs@.len() ==> comps_match(#[trigger] cache@[x]@, path_components(fs@[x].file@)),
            0 <= k <= fs@.len(),
            sorted_prefix(keys, k as int, ord@.map_values(|x: usize| x as int)),
        decreases fs.len() - k,
    {
        let ghost o = ord@.map_values(|x: usize| x as int);
        assert forall|q: int| 0 <= q < ord@.len() implies #[trigger] ord@[q] < k by {
            assert(o[q] == ord@[q] as int);
        }
        let mut p: usize = 0;
        while p < ord.len() && !key_before(fs, cache, k, ord[p])
            invariant
                keys == keys_of(fs@),
                cache@.len() == fs@.len(),
                forall|x: int| 0 <= x < fs@.len() ==> comps_match(#[trigger] cache@[x]@, path_components(fs@[x].file@)),
                k < fs@.len(),
                o == ord@.map_values(|x: usize| x as int),
                sorted_prefix(keys, k as int, o),
                0 <= p <= ord@.len(),
                forall|q: int| 0 <= q < ord@.len() ==> #[trigger] ord@[q] < k,
                forall|q: int| 0 <= q < p ==> !key_less(keys[k as int], #[trigger] keys[o[q]]),
            decreases ord.len() - p,
        {
            proof {
                assert(o[p as int] == ord@[p as int] as int);
                assert(0 <= o[p as int] < k);
            }
            p = p + 1;
        }
        proof {
            if p < ord@.len() {
                assert(o[p as int] == ord@[p as int] as int);
                assert(0 <= o[p as int] < k);
            }
            lemma_insert_sorted(keys, o, k as int, p as int);
        }
        ord.insert(p, k);
        proof {
            assert(ord@.map_values(|x: usize| x as int) =~= o.insert(p as int, k as int));
        }
        k = k + 1;
    }
    ord
}


/// Index of the first finding whose file is the same path as finding `k`'s: the
/// file text a group of findings is shown under.
pub open spec fn group_rep(keys: Seq<(Seq<(int, Seq<char>)>, int, int)>, k: int) -> int {
    choose|m: int| 0 <= m <= k && keys[m].0 == keys[k].0 && forall|j: int| 0 <= j < m ==> keys[j].0 != keys[k].0
}

proof fn lemma_min_index(keys: Seq<(Seq<(int, Seq<char>)>, int, int)>, c: Seq<(int, Seq<char>)>, u: int)
    requires
        0 <= u < keys.len(),
        exists|j: int| 0 <= j <= u && keys[j].0 == c,
    ensures
        exists|m: int| 0 <= m <= u && keys[m].0 == c && forall|j: int| 0 <= j < m ==> keys[j].0 != c,
    decreases u,
{
    if u > 0 && exists|j: int| 0 <= j <= u - 1 && keys[j].0 == c {
        lemma_min_index(keys, c, u - 1);
    } else if u > 0 {
        assert(keys[u].0 == c);
        assert(forall|j: int| 0 <= j < u ==> keys[j].0 != c);
    } else {
        assert(keys[0].0 == c);
    }
}

/// [`group_rep`] is the first index whose file is the same path.
pub proof fn lemma_group_rep(keys: Seq<(Seq<(int, Seq<char>)>, int, int)>, k: int)
    requires
        0 <= k < keys.len(),
    ensures
        0 <= group_rep(keys, k) <= k,
        keys[group_rep(keys, k)].0 == keys[k].0,
        forall|j: int| 0 <= j < group_rep(keys, k) ==> keys[j].0 != keys[k].0,
{
    lemma_min_index(keys, keys[k].0, k);
}

/// For each finding, the index of [`group_rep`].
pub(crate) fn group_reps(fs: &Vec<Finding>, cache: &Vec<Vec<(u8, Vec<char>)>>) -> (r: Vec<usize>)
    requires
        cache@.len() == fs@.len(),
        forall|x: int| 0 <= x < fs@.len() ==> comps_match(#[trigger] cache@[x]@, path_components(fs@[x].file@)),
    ensures
        r@.len() == fs@.len(),
        forall|k: int| 0 <= k < fs@.len() ==> #[trigger] r@[k] as int == group_rep(keys_of(fs@), k),
        forall|k: int| 0 <= k < fs@.len() ==> 0 <= #[trigger] r@[k] <= k,
{
    let ghost keys = keys_of(fs@);
    let mut out: Vec<usize> = Vec::new();
    let mut k: usize = 0;
    while k < fs.len()
        invariant
            keys == keys_of(fs@),
            cache@.len() == fs@.len(),
            forall|x: int| 0 <= x < fs@.len() ==> comps_match(#[trigger] cache@[x]@, path_components(fs@[x].file@)),
            0 <= k <= fs@.len(),
            out@.len() == k,
            forall|j: int| 0 <= j < k ==> #[trigger] out@[j] as int == group_rep(keys, j),
            forall|j: int| 0 <= j < k ==> 0 <= #[trigger] out@[j] <= j,
        decreases fs.len() - k,
    {
        let ghost ck = path_components(fs@[k as int].file@);
        assert(comps_match(cache@[k as int]@, ck));
        assert(keys[k as int].0 == ck);
        let mut m: usize = 0;
        loop
            invariant
                keys == keys_of(fs@),
                cache@.len() == fs@.len(),
                forall|x: int| 0 <= x < fs@.len() ==> comps_match(#[trigger] cache@[x]@, path_components(fs@[x].file@)),
                k < fs@.len(),
                ck == keys[k as int].0,
                0 <= m <= k,
                forall|j: int| 0 <= j < m ==> (#[trigger] keys[j]).0 != ck,
            ensures
                0 <= m <= k,
                keys[m as int].0 == ck,
                forall|j: int| 0 <= j < m ==> (#[trigger] keys[j]).0 != ck,
            decreases k - m,
        {
            let ghost cm = path_components(fs@[m as int].file@);
            assert(comps_match(cache@[m as int]@, cm));
            assert(keys[m as int].0 == cm);
            let lt = crate::paths::comps_less_exec(&cache[m], &cache[k], Ghost(cm), Ghost(ck));
            let gt = crate::paths::comps_less_exec(&cache[k], &cache[m], Ghost(ck), Ghost(cm));
            proof {
                crate::paths::lemma_comps_less_total(cm, ck);
                if cm == ck {
                    crate::paths::lemma_comps_less_irrefl(cm);
                }
            }
            if !lt && !gt {
                break;
            }
            assert(m != k);
            m = m + 1;
        }
        proof {
            let g = group_rep(keys, k as int);
            assert(0 <= m <= k && keys[m as int].0 == keys[k as int].0 && forall|j: int|
                0 <= j < m ==> keys[j].0 != keys[k as int].0);
            if g != m {
                if g < m {
                    assert(keys[g].0 != keys[k as int].0);
                } else {
                    assert(keys[m as int].0 != keys[k as int].0);
                }
            }
            assert(g == m);
        }
        out.push(m);
        k = k + 1;
    }
    out
}

/// One rendered finding: `path:line:col: CODE name: message`.
pub open spec fn finding_line(f: Finding, shown: Seq<char>, name: Seq<char>) -> Seq<char> {
    shown + ":"@ + decimal(f.line as nat) + ":"@ + decimal(f.column as nat) + ": "@ + f.code@ + " "@
        + name + ": "@ + f.message@ + "\n"@
}

/// The first `i` finding lines of the text report, in the order `ord`.
pub open spec fn lines_text(
    fs: Seq<Finding>,
    ord: Seq<int>,
    names: Seq<Seq<char>>,
    base: Seq<char>,
    i: int,
) -> Seq<char>
    decreases i,
{
    if i <= 0 {
        Seq::empty()
    } else {
        let k = ord[i - 1];
        lines_text(fs, ord, names, base, i - 1) + finding_line(
            fs[k],
            display_spec(fs[group_rep(keys_of(fs), k)].file@, base),
            names[k],
        )
    }
}

/// The text report: one line per finding in sorted order, the summary line, and the
/// triage footer when there is a finding.
pub open spec fn render_text_spec(
    fs: Seq<Finding>,
    ord: Seq<int>,
    names: Seq<Seq<char>>,
    base: Seq<char>,
    discovered: nat,
) -> Seq<char> {
    lines_text(fs, ord, names, base, ord.len() as int) + summary_spec(fs.len(), discovered) + "\n"@
        + if fs.len() > 0 {
        "\n"@ + REPORT_FOOTER@ + "\n"@
    } else {
        Seq::empty()
    }
}

/// `name` is what `rule_name` answers for `code`.
pub open spec fn named_by<F: Fn(&str) -> &'static str>(rule_name: F, code: &str, name: Seq<char>) -> bool {
    exists|nm: &'static str| rule_name.ensures((code,), nm) && nm@ == name
}

impl Report {
    /// `"N findings in M files discovered."`
    pub fn summary_line(&self) -> (r: String)
        ensures
            r@ == summary_spec(self.findings@.len(), self.files_discovered as nat),
    {
        let mut v: Vec<char> = Vec::new();
        crate::text::push_decimal(&mut v, self.findings.len());
        crate::text::push_str(&mut v, " findings in ");
        crate::text::push_decimal(&mut v, self.files_discovered);
        crate::text::push_str(&mut v, " files discovered.");
        crate::text::string_of(&v)
    }

    /// Process exit code: `0` when clean, `1` when there are findings.
    pub fn exit_code(&self) -> (r: u8)
        ensures
            r == (if self.findings@.len() == 0 {
                0u8
            } else {
                1u8
            }),
    {
        if self.findings.len() == 0 {
            0
        } else {
            1
        }
    }

    /// The text report: findings grouped by file (files in path order, findings by
    /// line then column, all else in input order), each as
    /// `path:line:col: CODE name: message` with `path` shortened against `base`,
    /// then the summary line, then the triage footer when there is a finding.
    pub fn render_text<F: Fn(&str) -> &'static str>(&self, base: &str, rule_name: F) -> (r: String)
        requires
            forall|c: &str| rule_name.requires((c,)),
        ensures
            exists|ord: Seq<int>, names: Seq<Seq<char>>|
                #![trigger render_text_spec(self.findings@, ord, names, base@, self.files_discovered as nat)]
                stably_sorted(keys_of(self.findings@), ord) && names.len() == self.findings@.len() && (forall|k: int|
                    0 <= k < names.len() ==> named_by(rule_name, self.findings@[k].code, #[trigger] names[k]))
                    && r@ == render_text_spec(self.findings@, ord, names, base@, self.files_discovered as nat),
    {
        let (mut out, Ghost(o), Ghost(names)) = render_findings(&self.findings, base, rule_name);
        let summary = self.summary_line();
        let ghost body = out@;
        crate::text::push_str(&mut out, summary.as_str());
        crate::text::push_str(&mut out, "\n");
        if self.findings.len() > 0 {
            crate::guide::push_report_footer(&mut out);
        }
        proof {
            assert(out@ =~= render_text_spec(self.findings@, o, names, base@, self.files_discovered as nat));
        }
        crate::text::string_of(&out)
    }
}

/// The finding lines of the text report, with the order and the names they used.
#[verifier::rlimit(80)]
fn render_findings<F: Fn(&str) -> &'static str>(fs: &Vec<Finding>, base: &str, rule_name: F) -> (r: (
    Vec<char>,
    Ghost<Seq<int>>,
    Ghost<Seq<Seq<char>>>,
))
    requires
        forall|c: &str| rule_name.requires((c,)),
    ensures
        stably_sorted(keys_of(fs@), r.1@),
        r.2@.len() == fs@.len(),
        forall|k: int| 0 <= k < fs@.len() ==> named_by(rule_name, fs@[k].code, #[trigger] r.2@[k]),
        r.0@ == lines_text(fs@, r.1@, r.2@, base@, fs@.len() as int),
{
    let cache = file_components(fs);
    let ord = sort_order(fs, &cache);
    let reps = group_reps(fs, &cache);
    let ghost o = ord@.map_values(|x: usize| x as int);
    let ghost keys = keys_of(fs@);
    let mut names: Ghost<Seq<Seq<char>>> = Ghost(Seq::new(fs@.len(), |i: int| Seq::<char>::empty()));
    let mut out: Vec<char> = Vec::new();
    let mut i: usize = 0;
    while i < ord.len()
        invariant
            forall|c: &str| rule_name.requires((c,)),
            o == ord@.map_values(|x: usize| x as int),
            keys == keys_of(fs@),
            stably_sorted(keys, o),
            reps@.len() == fs@.len(),
            forall|k: int| 0 <= k < fs@.len() ==> #[trigger] reps@[k] as int == group_rep(keys, k),
            forall|k: int| 0 <= k < fs@.len() ==> 0 <= #[trigger] reps@[k] <= k,
            0 <= i <= ord@.len(),
            names@.len() == fs@.len(),
            forall|j: int| 0 <= j < i ==> named_by(rule_name, fs@[o[j]].code, #[trigger] names@[o[j]]),
            out@ == lines_text(fs@, o, names@, base@, i as int),
        decreases ord.len() - i,
    {
        let k = ord[i];
        proof {
            assert(o[i as int] == k as int);
        }
        let nm = rule_name(fs[k].code);
        let rep = reps[k];
        let shown = crate::paths::display_path(fs[rep].file.as_str(), base);
        let ghost old_names = names@;
        proof {
            names@ = names@.update(k as int, nm@);
            lemma_render_step(rule_name, fs@, o, old_names, names@, base@, i as int, nm);
        }
        push_finding_line(&mut out, &fs[k], shown.as_str(), nm);
        i = i + 1;
    }
    proof {
        assert(o.len() == fs@.len());
        lemma_names_complete(rule_name, fs@, o, names@);
    }
    (out, Ghost(o), names)
}

proof fn lemma_render_step<F: Fn(&str) -> &'static str>(
    rule_name: F,
    fs: Seq<Finding>,
    o: Seq<int>,
    old_names: Seq<Seq<char>>,
    names: Seq<Seq<char>>,
    base: Seq<char>,
    i: int,
    nm: &'static str,
)
    requires
        stably_sorted(keys_of(fs), o),
        0 <= i < o.len(),
        old_names.len() == fs.len(),
        names == old_names.update(o[i], nm@),
        rule_name.ensures((fs[o[i]].code,), nm),
        forall|j: int| 0 <= j < i ==> named_by(rule_name, fs[o[j]].code, #[trigger] old_names[o[j]]),
    ensures
        forall|j: int| 0 <= j < i + 1 ==> named_by(rule_name, fs[o[j]].code, #[trigger] names[o[j]]),
        lines_text(fs, o, old_names, base, i) == lines_text(fs, o, names, base, i),
        names.len() == fs.len(),
{
    let k = o[i];
    assert(0 <= k < fs.len());
    assert(named_by(rule_name, fs[k].code, nm@));
    assert forall|j: int| 0 <= j < i + 1 implies named_by(rule_name, fs[o[j]].code, #[trigger] names[o[j]]) by {
        if j < i {
            assert(o[j] != o[i]);
            assert(names[o[j]] == old_names[o[j]]);
        }
    }
    assert forall|j: int| 0 <= j < i implies old_names[#[trigger] o[j]] == names[o[j]] by {
        assert(o[j] != o[i]);
    }
    lemma_lines_text_names(fs, o, old_names, names, base, i);
}

proof fn lemma_names_complete<F: Fn(&str) -> &'static str>(
    rule_name: F,
    fs: Seq<Finding>,
    o: Seq<int>,
    names: Seq<Seq<char>>,
)
    requires
        stably_sorted(keys_of(fs), o),
        names.len() == fs.len(),
        forall|j: int| 0 <= j < o.len() ==> named_by(rule_name, fs[o[j]].code, #[trigger] names[o[j]]),
    ensures
        forall|k: int| 0 <= k < names.len() ==> named_by(rule_name, fs[k].code, #[trigger] names[k]),
{
    assert forall|k: int| 0 <= k < names.len() implies named_by(rule_name, fs[k].code, #[trigger] names[k]) by {
        lemma_sorted_covers(keys_of(fs), o, k);
        let j = choose|j: int| 0 <= j < o.len() && o[j] == k;
        assert(named_by(rule_name, fs[o[j]].code, names[o[j]]));
    }
}

/// The lines already rendered do not change when a name outside them is recorded.
proof fn lemma_lines_text_names(
    fs: Seq<Finding>,
    ord: Seq<int>,
    a: Seq<Seq<char>>,
    b: Seq<Seq<char>>,
    base: Seq<char>,
    i: int,
)
    requires
        0 <= i <= ord.len(),
        forall|j: int| 0 <= j < i ==> a[#[trigger] ord[j]] == b[ord[j]],
    ensures
        lines_text(fs, ord, a, base, i) == lines_text(fs, ord, b, base, i),
    decreases i,
{
    if i > 0 {
        lemma_lines_text_names(fs, ord, a, b, base, i - 1);
        assert(a[ord[i - 1]] == b[ord[i - 1]]);
    }
}

/// A stable sort of `n` keys lists every index below `n`.
proof fn lemma_sorted_covers(keys: Seq<(Seq<(int, Seq<char>)>, int, int)>, ord: Seq<int>, k: int)
    requires
        stably_sorted(keys, ord),
        0 <= k < keys.len(),
    ensures
        exists|j: int| 0 <= j < ord.len() && ord[j] == k,
{
    let s = ord.to_set();
    assert forall|x: int| s.contains(x) implies 0 <= x < keys.len() by {
        let j = choose|j: int| 0 <= j < ord.len() && ord[j] == x;
        assert(0 <= ord[j] < keys.len());
    }
    assert(ord.no_duplicates()) by {
        assert forall|i: int, j: int| 0 <= i < ord.len() && 0 <= j < ord.len() && i != j implies ord[i] != ord[j] by {
            if i < j {
            } else {
            }
        }
    }
    ord.unique_seq_to_set();
    let full = vstd::set_lib::set_int_range(0, keys.len() as int);
    vstd::set_lib::lemma_int_range(0, keys.len() as int);
    assert(s.subset_of(full));
    if !s.contains(k) {
        assert(s.subset_of(full.remove(k)));
        vstd::set_lib::lemma_len_subset(s, full.remove(k));
    }
    assert(s.contains(k));
}

/// Appends one rendered finding line.
fn push_finding_line(out: &mut Vec<char>, f: &Finding, shown: &str, name: &str)
    ensures
        final(out)@ == old(out)@ + finding_line(*f, shown@, name@),
{
    crate::text::push_str(out, shown);
    crate::text::push_str(out, ":");
    crate::text::push_decimal(out, f.line);
    crate::text::push_str(out, ":");
    crate::text::push_decimal(out, f.column);
    crate::text::push_str(out, ": ");
    crate::text::push_str(out, f.code);
    crate::text::push_str(out, " ");
    crate::text::push_str(out, name);
    crate::text::push_str(out, ": ");
    crate::text::push_str(out, f.message.as_str());
    crate::text::push_str(out, "\n");
    assert(out@ =~= old(out)@ + finding_line(*f, shown@, name@));
}

} // verus!
