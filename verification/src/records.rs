//! The records the JSON and SARIF renderings of a report are made of: each
//! finding with its path shortened against the run's base, the rule catalogue,
//! and each finding's place in that catalogue.
use vstd::prelude::*;
use crate::cli::doc_spec;
use crate::paths::{display_path, display_spec};
use crate::report::{severity_name, Finding, Report};
use crate::rules::{all, all_rules, rule_code, rule_index, rule_name};

verus! {

/// One finding as a machine-readable rendering shows it.
#[derive(Debug)]
pub struct FindingRecord {
    pub code: &'static str,
    pub message: String,
    /// The finding's file as the text report shows it.
    pub file: String,
    pub line: usize,
    pub column: usize,
    /// `"warning"` or `"error"`.
    pub severity: &'static str,
}

/// `r` is `f` as rendered for a run started at `base`.
pub open spec fn record_of(f: Finding, base: Seq<char>, r: FindingRecord) -> bool {
    &&& r.code@ == f.code@
    &&& r.message@ == f.message@
    &&& r.file@ == display_spec(f.file@, base)
    &&& r.line == f.line
    &&& r.column == f.column
    &&& r.severity@ == severity_name(f.severity)
}

/// The record of one finding.
pub fn finding_record(f: &Finding, base: &str) -> (r: FindingRecord)
    ensures
        record_of(*f, base@, r),
{
    FindingRecord {
        code: f.code,
        message: f.message.clone(),
        file: display_path(f.file.as_str(), base),
        line: f.line,
        column: f.column,
        severity: f.severity.as_str(),
    }
}

/// The records of a report's findings, in report order.
pub fn finding_records(report: &Report, base: &str) -> (r: Vec<FindingRecord>)
    ensures
        r@.len() == report.findings@.len(),
        forall|i: int| 0 <= i < r@.len() ==> record_of(report.findings@[i], base@, #[trigger] r@[i]),
{
    let mut out: Vec<FindingRecord> = Vec::new();
    let mut i: usize = 0;
    while i < report.findings.len()
        invariant
            0 <= i <= report.findings@.len(),
            out@.len() == i,
            forall|j: int| 0 <= j < i ==> record_of(report.findings@[j], base@, #[trigger] out@[j]),
        decreases report.findings.len() - i,
    {
        out.push(finding_record(&report.findings[i], base));
        i = i + 1;
    }
    out
}

/// A rule as the SARIF catalogue lists it.
#[derive(Debug)]
pub struct RuleRecord {
    pub id: &'static str,
    pub name: &'static str,
    /// The rule's long-form documentation.
    pub description: String,
}

/// The SARIF rule catalogue: every rule, in code order.
pub fn rule_records() -> (r: Vec<RuleRecord>)
    ensures
        r@.len() == all_rules().len(),
        forall|i: int|
            0 <= i < r@.len() ==> (#[trigger] r@[i]).id@ == rule_code(all_rules()[i]) && r@[i].name@ == rule_name(
                all_rules()[i],
            ) && r@[i].description@ == doc_spec(all_rules()[i]),
{
    let rules = all();
    let mut out: Vec<RuleRecord> = Vec::new();
    let mut i: usize = 0;
    while i < rules.len()
        invariant
            rules@ == all_rules(),
            0 <= i <= rules@.len(),
            out@.len() == i,
            forall|j: int|
                0 <= j < i ==> (#[trigger] out@[j]).id@ == rule_code(all_rules()[j]) && out@[j].name@ == rule_name(
                    all_rules()[j],
                ) && out@[j].description@ == doc_spec(all_rules()[j]),
        decreases rules.len() - i,
    {
        let r = rules[i];
        out.push(RuleRecord { id: r.code(), name: r.name(), description: r.doc() });
        i = i + 1;
    }
    out
}

/// One finding as a SARIF result: its record and the index of its rule in the
/// catalogue of [`rule_records`], when its code is a rule's.
#[derive(Debug)]
pub struct ResultRecord {
    pub finding: FindingRecord,
    pub rule_index: Option<usize>,
}

/// `k` is where the catalogue lists the rule with code `code`, or `None` when no
/// rule has it.
pub open spec fn index_of_code(code: Seq<char>, k: Option<usize>) -> bool {
    match k {
        Some(i) => i < all_rules().len() && rule_code(all_rules()[i as int]) == code,
        None => forall|j: int| 0 <= j < all_rules().len() ==> rule_code(#[trigger] all_rules()[j]) != code,
    }
}

/// The SARIF results of a report, in report order.
pub fn result_records(report: &Report, base: &str) -> (r: Vec<ResultRecord>)
    ensures
        r@.len() == report.findings@.len(),
        forall|i: int|
            0 <= i < r@.len() ==> record_of(report.findings@[i], base@, (#[trigger] r@[i]).finding) && index_of_code(
                report.findings@[i].code@,
                r@[i].rule_index,
            ),
{
    let mut out: Vec<ResultRecord> = Vec::new();
    let mut i: usize = 0;
    while i < report.findings.len()
        invariant
            0 <= i <= report.findings@.len(),
            out@.len() == i,
            forall|j: int|
                0 <= j < i ==> record_of(report.findings@[j], base@, (#[trigger] out@[j]).finding) && index_of_code(
                    report.findings@[j].code@,
                    out@[j].rule_index,
                ),
        decreases report.findings.len() - i,
    {
        let f = &report.findings[i];
        let k = rule_index(f.code);
        out.push(ResultRecord { finding: finding_record(f, base), rule_index: k });
        i = i + 1;
    }
    out
}

} // verus!
