//! Validation results.

use crate::corpus::types::ArtifactType;
use crate::order::{lemma_sorted_map, sorted, stable_sort};
use crate::text::opt_view;
use crate::util::{display_of, display_path, Host, HostModel};
use vstd::prelude::*;

verus! {

#[derive(Debug, Clone, Copy, PartialEq, Eq, Structural)]
pub enum Severity {
    /// The artifact is broken: a missing reference, an undeclared slot.
    Error,
    /// Works, but violates the shape the type expects.
    Warning,
    /// Worth knowing.
    Info,
}

pub open spec fn severity_name(s: Severity) -> Seq<char> {
    match s {
        Severity::Error => "error"@,
        Severity::Warning => "warning"@,
        Severity::Info => "info"@,
    }
}

/// How bad a finding is; the worst is first.
pub open spec fn severity_rank(s: Severity) -> int {
    match s {
        Severity::Error => 0,
        Severity::Warning => 1,
        Severity::Info => 2,
    }
}

impl Severity {
    pub fn as_str(self) -> (out: &'static str)
        ensures
            out@ == severity_name(self),
    {
        match self {
            Severity::Error => "error",
            Severity::Warning => "warning",
            Severity::Info => "info",
        }
    }

    fn rank(self) -> (out: u8)
        ensures
            out == severity_rank(self),
    {
        match self {
            Severity::Error => 0,
            Severity::Warning => 1,
            Severity::Info => 2,
        }
    }
}

/// One validation result. `line` is 1-based so it can go straight into a
/// gutter marker.
#[derive(Debug)]
pub struct Finding {
    pub severity: Severity,
    /// Stable rule id, e.g. `skill.reference.missing`.
    pub rule: String,
    pub message: String,
    pub line: Option<usize>,
    /// Set when the finding is about a file other than the one validated:
    /// reference integrity reaches across a skill tree.
    pub file: Option<String>,
    pub hint: Option<String>,
}

/// What a finding says.
pub struct FindingModel {
    pub severity: Severity,
    pub rule: Seq<char>,
    pub message: Seq<char>,
    pub line: Option<int>,
    pub file: Option<Seq<char>>,
    pub hint: Option<Seq<char>>,
}

pub open spec fn opt_number(n: Option<usize>) -> Option<int> {
    match n {
        Some(n) => Some(n as int),
        None => None,
    }
}

impl View for Finding {
    type V = FindingModel;

    open spec fn view(&self) -> FindingModel {
        FindingModel {
            severity: self.severity,
            rule: self.rule@,
            message: self.message@,
            line: opt_number(self.line),
            file: opt_view(self.file),
            hint: opt_view(self.hint),
        }
    }
}

pub open spec fn finding_models(f: Seq<Finding>) -> Seq<FindingModel> {
    Seq::new(f.len(), |i: int| f[i]@)
}

/// A finding without a place.
pub open spec fn plain_finding(
    severity: Severity,
    rule: Seq<char>,
    message: Seq<char>,
) -> FindingModel {
    FindingModel { severity, rule, message, line: None, file: None, hint: None }
}

/// A finding at a line.
pub open spec fn finding_at(
    severity: Severity,
    rule: Seq<char>,
    message: Seq<char>,
    line: int,
) -> FindingModel {
    FindingModel { severity, rule, message, line: Some(line), file: None, hint: None }
}

impl Finding {
    pub fn error(rule: &str, message: &str) -> (out: Finding)
        ensures
            out@ == plain_finding(Severity::Error, rule@, message@),
    {
        Finding {
            severity: Severity::Error,
            rule: rule.to_owned(),
            message: message.to_owned(),
            line: None,
            file: None,
            hint: None,
        }
    }

    pub fn warning(rule: &str, message: &str) -> (out: Finding)
        ensures
            out@ == plain_finding(Severity::Warning, rule@, message@),
    {
        Finding {
            severity: Severity::Warning,
            rule: rule.to_owned(),
            message: message.to_owned(),
            line: None,
            file: None,
            hint: None,
        }
    }

    pub fn info(rule: &str, message: &str) -> (out: Finding)
        ensures
            out@ == plain_finding(Severity::Info, rule@, message@),
    {
        Finding {
            severity: Severity::Info,
            rule: rule.to_owned(),
            message: message.to_owned(),
            line: None,
            file: None,
            hint: None,
        }
    }

    pub fn at(self, line: usize) -> (out: Finding)
        ensures
            out@ == (FindingModel { line: Some(line as int), ..self@ }),
    {
        let mut out = self;
        out.line = Some(line);
        out
    }

    pub fn in_file(self, file: &str) -> (out: Finding)
        ensures
            out@ == (FindingModel { file: Some(file@), ..self@ }),
    {
        let mut out = self;
        out.file = Some(file.to_owned());
        out
    }

    pub fn with_hint(self, hint: &str) -> (out: Finding)
        ensures
            out@ == (FindingModel { hint: Some(hint@), ..self@ }),
    {
        let mut out = self;
        out.hint = Some(hint.to_owned());
        out
    }
}

/// Adds a finding at the end.
pub fn push_finding(out: &mut Vec<Finding>, f: Finding)
    ensures
        finding_models(final(out)@) == finding_models(old(out)@).push(f@),
{
    let ghost before = finding_models(out@);
    out.push(f);
    assert(finding_models(out@) =~= before.push(f@));
}

/// The findings about one document.
#[derive(Debug)]
pub struct Validation {
    pub path: String,
    pub display: String,
    pub artifact_type: ArtifactType,
    pub findings: Vec<Finding>,
    pub errors: usize,
    pub warnings: usize,
    /// True when nothing at error severity was found.
    pub ok: bool,
}

/// Errors first, then by position; what has no position comes first.
pub open spec fn worst_first() -> spec_fn(FindingModel, FindingModel) -> bool {
    |a: FindingModel, b: FindingModel|
        severity_rank(a.severity) < severity_rank(b.severity) || (severity_rank(a.severity)
            == severity_rank(b.severity) && (match (a.line, b.line) {
            (None, _) => true,
            (Some(_), None) => false,
            (Some(x), Some(y)) => x <= y,
        }))
}

fn no_better(a: &Finding, b: &Finding) -> (out: bool)
    ensures
        out == worst_first()(a@, b@),
{
    let x: u8 = a.severity.rank();
    let y: u8 = b.severity.rank();
    x < y || (x == y && (match (a.line, b.line) {
        (None, _) => true,
        (Some(_), None) => false,
        (Some(x), Some(y)) => x <= y,
    }))
}

/// How many findings are of a severity.
pub open spec fn severity_count(f: Seq<FindingModel>, s: Severity) -> nat
    decreases f.len(),
{
    if f.len() == 0 {
        0
    } else {
        severity_count(f.drop_last(), s) + if f.last().severity == s {
            1nat
        } else {
            0nat
        }
    }
}

fn count_severity(f: &Vec<Finding>, s: Severity) -> (out: usize)
    ensures
        out == severity_count(finding_models(f@), s),
{
    let ghost all = finding_models(f@);
    let mut n: usize = 0;
    let mut i: usize = 0;
    while i < f.len()
        invariant
            all == finding_models(f@),
            n <= i <= f.len(),
            n == severity_count(all.take(i as int), s),
        decreases f.len() - i,
    {
        assert(all.take(i + 1).drop_last() =~= all.take(i as int));
        if f[i].severity == s {
            n += 1;
        }
        i += 1;
    }
    assert(all.take(i as int) =~= all);
    n
}

/// Is `v` the validation of a document with some findings?
pub open spec fn is_validation(
    v: Validation,
    path: Seq<char>,
    ty: ArtifactType,
    findings: Seq<FindingModel>,
    host: HostModel,
) -> bool {
    let f = sorted(findings, worst_first());
    &&& v.path@ == path
    &&& v.display@ == display_of(path, host)
    &&& v.artifact_type == ty
    &&& finding_models(v.findings@) == f
    &&& v.errors == severity_count(f, Severity::Error)
    &&& v.warnings == severity_count(f, Severity::Warning)
    &&& v.ok == (severity_count(f, Severity::Error) == 0)
}

impl Validation {
    /// Sorts the findings worst-first and counts them. `host` is where the
    /// path is shown.
    pub fn new(
        path: &str,
        artifact_type: ArtifactType,
        findings: Vec<Finding>,
        host: &Host,
    ) -> (out: Validation)
        ensures
            is_validation(
                out,
                path@,
                artifact_type,
                finding_models(findings@),
                host@,
            ),
    {
        let ghost unsorted = findings@;
        let ghost rel = |a: Finding, b: Finding| worst_first()(a@, b@);
        let findings = stable_sort(findings, no_better, Ghost(rel));
        proof {
            let f = |x: Finding| x@;
            lemma_sorted_map(unsorted, f, rel, worst_first());
            assert(unsorted.map_values(f) =~= finding_models(unsorted));
            assert(findings@.map_values(f) =~= finding_models(findings@));
        }
        let errors: usize = count_severity(&findings, Severity::Error);
        let warnings: usize = count_severity(&findings, Severity::Warning);
        Validation {
            display: display_path(path, host),
            path: path.to_owned(),
            artifact_type,
            errors,
            warnings,
            ok: errors == 0,
            findings,
        }
    }
}

proof fn lemma_severity_count(
    f: Seq<FindingModel>,
    s: Severity,
    of: spec_fn(FindingModel) -> bool,
)
    requires
        forall|x: FindingModel| #[trigger] of(x) == (x.severity == s),
    ensures
        severity_count(f, s) == f.filter(of).len(),
    decreases f.len(),
{
    reveal(Seq::filter);
    if f.len() > 0 {
        lemma_severity_count(f.drop_last(), s, of);
    }
}

/// A report holds every finding, and no other: the errors first, then the
/// warnings, then the rest, and among those of one severity from the top down,
/// with what has no line in front. It counts the errors and the warnings, and
/// is good exactly when there is no error.
pub proof fn law_report_holds_every_finding(
    v: Validation,
    path: Seq<char>,
    ty: ArtifactType,
    findings: Seq<FindingModel>,
    host: HostModel,
)
    requires
        is_validation(v, path, ty, findings, host),
    ensures
        ({
            let f = finding_models(v.findings@);
            &&& f.to_multiset() == findings.to_multiset()
            &&& forall|i: int, j: int|
                0 <= i < j < f.len() ==> ({
                    let a = #[trigger] f[i];
                    let b = #[trigger] f[j];
                    &&& b.severity == Severity::Error ==> a.severity == Severity::Error
                    &&& a.severity == Severity::Info ==> b.severity == Severity::Info
                    &&& a.severity == b.severity && b.line is None ==> a.line is None
                    &&& a.severity == b.severity && a.line is Some && b.line is Some ==> a.line->0
                        <= b.line->0
                })
            &&& v.errors == f.filter(|x: FindingModel| x.severity == Severity::Error).len()
            &&& v.warnings == f.filter(|x: FindingModel| x.severity == Severity::Warning).len()
            &&& v.ok <==> forall|i: int|
                0 <= i < findings.len() ==> (#[trigger] findings[i]).severity != Severity::Error
        }),
{
    let f = finding_models(v.findings@);
    crate::order::lemma_sorted_multiset(findings, worst_first());
    assert(crate::order::is_total_order(worst_first()));
    crate::order::lemma_sorted_in_order(findings, worst_first());
    crate::order::lemma_sorted_same(findings, worst_first());
    assert forall|i: int, j: int| 0 <= i < j < f.len() implies worst_first()(
        #[trigger] f[i],
        #[trigger] f[j],
    ) by {}
    let bad = |x: FindingModel| x.severity == Severity::Error;
    lemma_severity_count(f, Severity::Error, bad);
    lemma_severity_count(f, Severity::Warning, |x: FindingModel| x.severity == Severity::Warning);
    lemma_no_errors(f);
    if v.ok {
        assert forall|i: int| 0 <= i < findings.len() implies (#[trigger] findings[i]).severity
            != Severity::Error by {
            assert(findings.contains(findings[i]));
            assert(f.contains(findings[i]));
            let k = choose|k: int| 0 <= k < f.len() && f[k] == findings[i];
            assert(f[k].severity != Severity::Error);
        }
    }
    if forall|i: int|
        0 <= i < findings.len() ==> (#[trigger] findings[i]).severity != Severity::Error {
        assert forall|k: int| 0 <= k < f.len() implies (#[trigger] f[k]).severity
            != Severity::Error by {
            assert(f.contains(f[k]));
            assert(findings.contains(f[k]));
            let i = choose|i: int| 0 <= i < findings.len() && findings[i] == f[k];
            assert(findings[i].severity != Severity::Error);
        }
    }
}

proof fn lemma_no_errors(f: Seq<FindingModel>)
    ensures
        severity_count(f, Severity::Error) == 0 <==> forall|i: int|
            0 <= i < f.len() ==> (#[trigger] f[i]).severity != Severity::Error,
    decreases f.len(),
{
    if f.len() > 0 {
        let d = f.drop_last();
        lemma_no_errors(d);
        if severity_count(f, Severity::Error) == 0 {
            assert forall|i: int| 0 <= i < f.len() implies (#[trigger] f[i]).severity
                != Severity::Error by {
                if i < d.len() {
                    assert(d[i] == f[i]);
                }
            }
        }
        if forall|i: int| 0 <= i < f.len() ==> (#[trigger] f[i]).severity != Severity::Error {
            assert forall|i: int| 0 <= i < d.len() implies (#[trigger] d[i]).severity
                != Severity::Error by {
                assert(f[i] == d[i]);
            }
            assert(f[f.len() - 1].severity != Severity::Error);
        }
    }
}

} // verus!
