//! The data the scanner reports and the registry keeps, with their views.
use vstd::prelude::*;

use crate::text::{is_text, to_chars, trim, trimmed};

verus! {

pub const SCHEMA_VERSION: u32 = 1;

pub const COUNTING_RULE_VERSION: u32 = 3;

#[derive(Clone, Copy, Debug, PartialEq, Eq, Structural)]
pub enum Language {
    Python,
    Swift,
    Rust,
}

/// The language whose sources carry the file extension `extension`.
pub open spec fn language_for_extension(extension: Seq<char>) -> Option<Language> {
    if extension == "py"@ {
        Some(Language::Python)
    } else if extension == "swift"@ {
        Some(Language::Swift)
    } else if extension == "rs"@ {
        Some(Language::Rust)
    } else {
        None
    }
}

impl Language {
    pub open spec fn label_text(self) -> Seq<char> {
        match self {
            Language::Python => "python"@,
            Language::Swift => "swift"@,
            Language::Rust => "rust"@,
        }
    }

    pub fn from_extension(extension: &str) -> (r: Option<Language>)
        ensures
            r == language_for_extension(extension@),
    {
        let chars = to_chars(extension);
        if is_text(chars.as_slice(), "py") {
            Some(Language::Python)
        } else if is_text(chars.as_slice(), "swift") {
            Some(Language::Swift)
        } else if is_text(chars.as_slice(), "rs") {
            Some(Language::Rust)
        } else {
            None
        }
    }

    pub fn label(self) -> (r: &'static str)
        ensures
            r@ == self.label_text(),
    {
        match self {
            Language::Python => "python",
            Language::Swift => "swift",
            Language::Rust => "rust",
        }
    }
}

#[derive(Clone, Debug)]
pub struct Candidate {
    pub fingerprint: String,
    pub language: Language,
    pub path: String,
    pub kind: String,
    pub line: usize,
    pub column: usize,
    pub excerpt: String,
    /// A control-flow construct inside an explicit Specification definition.
    pub inside_specification: bool,
}

pub struct CandidateView {
    pub fingerprint: Seq<char>,
    pub language: Language,
    pub path: Seq<char>,
    pub kind: Seq<char>,
    pub line: usize,
    pub column: usize,
    pub excerpt: Seq<char>,
    pub inside_specification: bool,
}

impl View for Candidate {
    type V = CandidateView;

    open spec fn view(&self) -> CandidateView {
        CandidateView {
            fingerprint: self.fingerprint@,
            language: self.language,
            path: self.path@,
            kind: self.kind@,
            line: self.line,
            column: self.column,
            excerpt: self.excerpt@,
            inside_specification: self.inside_specification,
        }
    }
}

impl DeepView for Candidate {
    type V = CandidateView;

    open spec fn deep_view(&self) -> CandidateView {
        self@
    }
}

#[derive(Clone, Debug)]
pub struct SpecificationDefinition {
    pub language: Language,
    pub path: String,
    pub name: String,
    pub kind: String,
    pub line: usize,
    pub column: usize,
}

pub struct DefinitionView {
    pub language: Language,
    pub path: Seq<char>,
    pub name: Seq<char>,
    pub kind: Seq<char>,
    pub line: usize,
    pub column: usize,
}

impl View for SpecificationDefinition {
    type V = DefinitionView;

    open spec fn view(&self) -> DefinitionView {
        DefinitionView {
            language: self.language,
            path: self.path@,
            name: self.name@,
            kind: self.kind@,
            line: self.line,
            column: self.column,
        }
    }
}

impl DeepView for SpecificationDefinition {
    type V = DefinitionView;

    open spec fn deep_view(&self) -> DefinitionView {
        self@
    }
}

#[derive(Clone, Debug)]
pub struct ParseIssue {
    pub path: String,
    pub message: String,
}

pub struct IssueView {
    pub path: Seq<char>,
    pub message: Seq<char>,
}

impl View for ParseIssue {
    type V = IssueView;

    open spec fn view(&self) -> IssueView {
        IssueView { path: self.path@, message: self.message@ }
    }
}

impl DeepView for ParseIssue {
    type V = IssueView;

    open spec fn deep_view(&self) -> IssueView {
        self@
    }
}

#[derive(Clone, Debug)]
pub struct ScopeIssue {
    pub path: String,
    pub message: String,
}

impl View for ScopeIssue {
    type V = IssueView;

    open spec fn view(&self) -> IssueView {
        IssueView { path: self.path@, message: self.message@ }
    }
}

impl DeepView for ScopeIssue {
    type V = IssueView;

    open spec fn deep_view(&self) -> IssueView {
        self@
    }
}

#[derive(Clone, Copy, Debug, PartialEq, Eq, Structural)]
pub enum SpecificationLivenessStatus {
    Live,
    Dead,
    Unknown,
}

/// The liveness of one recognized Specification definition, with the reason for it.
#[derive(Clone, Debug)]
pub struct SpecificationLiveness {
    pub language: Language,
    pub path: String,
    pub name: String,
    pub kind: String,
    pub line: usize,
    pub column: usize,
    pub status: SpecificationLivenessStatus,
    pub evidence: String,
}

pub struct LivenessView {
    pub language: Language,
    pub path: Seq<char>,
    pub name: Seq<char>,
    pub kind: Seq<char>,
    pub line: usize,
    pub column: usize,
    pub status: SpecificationLivenessStatus,
    pub evidence: Seq<char>,
}

impl View for SpecificationLiveness {
    type V = LivenessView;

    open spec fn view(&self) -> LivenessView {
        LivenessView {
            language: self.language,
            path: self.path@,
            name: self.name@,
            kind: self.kind@,
            line: self.line,
            column: self.column,
            status: self.status,
            evidence: self.evidence@,
        }
    }
}

impl DeepView for SpecificationLiveness {
    type V = LivenessView;

    open spec fn deep_view(&self) -> LivenessView {
        self@
    }
}

#[derive(Clone, Debug)]
pub struct ScanReport {
    pub schema_version: u32,
    pub root: String,
    pub includes: Vec<String>,
    pub scope_manifest_digest: Option<String>,
    pub scope_issues: Vec<ScopeIssue>,
    pub scope_review_required: bool,
    pub application_files: usize,
    pub excluded_files: usize,
    pub candidates: Vec<Candidate>,
    pub specifications: Vec<SpecificationDefinition>,
    pub source_digest: String,
    pub parse_issues: Vec<ParseIssue>,
    /// The liveness of each entry of `specifications`, in the same order.
    pub specification_liveness: Vec<SpecificationLiveness>,
}

pub struct ScanReportView {
    pub schema_version: u32,
    pub root: Seq<char>,
    pub includes: Seq<Seq<char>>,
    pub scope_manifest_digest: Option<Seq<char>>,
    pub scope_issues: Seq<IssueView>,
    pub scope_review_required: bool,
    pub application_files: usize,
    pub excluded_files: usize,
    pub candidates: Seq<CandidateView>,
    pub specifications: Seq<DefinitionView>,
    pub source_digest: Seq<char>,
    pub parse_issues: Seq<IssueView>,
    pub specification_liveness: Seq<LivenessView>,
}

impl View for ScanReport {
    type V = ScanReportView;

    open spec fn view(&self) -> ScanReportView {
        ScanReportView {
            schema_version: self.schema_version,
            root: self.root@,
            includes: self.includes.deep_view(),
            scope_manifest_digest: self.scope_manifest_digest.deep_view(),
            scope_issues: self.scope_issues.deep_view(),
            scope_review_required: self.scope_review_required,
            application_files: self.application_files,
            excluded_files: self.excluded_files,
            candidates: self.candidates.deep_view(),
            specifications: self.specifications.deep_view(),
            source_digest: self.source_digest@,
            parse_issues: self.parse_issues.deep_view(),
            specification_liveness: self.specification_liveness.deep_view(),
        }
    }
}

#[derive(Clone, Copy, Debug, PartialEq, Eq, Structural)]
pub enum Disposition {
    Unreviewed,
    Eligible,
    Excluded,
}

#[derive(Clone, Debug)]
pub struct Evidence {
    pub typed_context: Option<String>,
    pub named_rules: Option<String>,
    pub outcomes_tested: Option<String>,
    pub trace_tested: Option<String>,
}

pub struct EvidenceView {
    pub typed_context: Option<Seq<char>>,
    pub named_rules: Option<Seq<char>>,
    pub outcomes_tested: Option<Seq<char>>,
    pub trace_tested: Option<Seq<char>>,
}

impl View for Evidence {
    type V = EvidenceView;

    open spec fn view(&self) -> EvidenceView {
        EvidenceView {
            typed_context: self.typed_context.deep_view(),
            named_rules: self.named_rules.deep_view(),
            outcomes_tested: self.outcomes_tested.deep_view(),
            trace_tested: self.trace_tested.deep_view(),
        }
    }
}

impl DeepView for Evidence {
    type V = EvidenceView;

    open spec fn deep_view(&self) -> EvidenceView {
        self@
    }
}

/// A reference earns a point when it holds more than whitespace.
pub open spec fn reference_point(reference: Option<Seq<char>>) -> nat {
    match reference {
        Some(text) => if trim(text).len() > 0 {
            1
        } else {
            0
        },
        None => 0,
    }
}

impl EvidenceView {
    /// The four criteria, by name, in their fixed order.
    pub open spec fn entries(self) -> Seq<(Seq<char>, Option<Seq<char>>)> {
        seq![
            ("typed_context"@, self.typed_context),
            ("named_rules"@, self.named_rules),
            ("outcomes_tested"@, self.outcomes_tested),
            ("trace_tested"@, self.trace_tested),
        ]
    }

    pub open spec fn points(self) -> nat {
        reference_point(self.typed_context) + reference_point(self.named_rules) + reference_point(
            self.outcomes_tested,
        ) + reference_point(self.trace_tested)
    }

    pub open spec fn is_empty(self) -> bool {
        self.typed_context is None && self.named_rules is None && self.outcomes_tested is None
            && self.trace_tested is None
    }
}

pub open spec fn optional_text_view(reference: Option<&str>) -> Option<Seq<char>> {
    match reference {
        Some(text) => Some(text@),
        None => None,
    }
}

fn as_text(reference: &Option<String>) -> (r: Option<&str>)
    ensures
        optional_text_view(r) == reference.deep_view(),
{
    match reference {
        Some(text) => Some(text.as_str()),
        None => None,
    }
}

fn earns_point(reference: &Option<String>) -> (r: usize)
    ensures
        r == reference_point(reference.deep_view()),
{
    match reference {
        Some(text) => {
            let chars = to_chars(text.as_str());
            let inner = trimmed(chars.as_slice());
            if inner.len() > 0 {
                1
            } else {
                0
            }
        },
        None => 0,
    }
}

impl Evidence {
    pub fn new_empty() -> (r: Evidence)
        ensures
            r@.is_empty(),
    {
        Evidence { typed_context: None, named_rules: None, outcomes_tested: None, trace_tested: None }
    }

    pub fn entries(&self) -> (r: [(&'static str, Option<&str>); 4])
        ensures
            forall|i: int|
                0 <= i < 4 ==> (#[trigger] r@[i]).0@ == self@.entries()[i].0
                    && optional_text_view(r@[i].1) == self@.entries()[i].1,
    {
        [
            ("typed_context", as_text(&self.typed_context)),
            ("named_rules", as_text(&self.named_rules)),
            ("outcomes_tested", as_text(&self.outcomes_tested)),
            ("trace_tested", as_text(&self.trace_tested)),
        ]
    }

    pub fn points(&self) -> (r: usize)
        ensures
            r == self@.points(),
            r <= 4,
    {
        earns_point(&self.typed_context) + earns_point(&self.named_rules) + earns_point(
            &self.outcomes_tested,
        ) + earns_point(&self.trace_tested)
    }
}

/// Evidence that earns no point is left out when a registry is written.
pub fn evidence_is_empty(evidence: &Evidence) -> (r: bool)
    ensures
        r == (evidence@.points() == 0),
{
    evidence.points() == 0
}

#[derive(Clone, Debug)]
pub struct Site {
    pub id: String,
    pub fingerprint: String,
    pub language: Language,
    pub path: String,
    pub kind: String,
    pub disposition: Disposition,
    pub reason: Option<String>,
    pub evidence: Evidence,
}

pub struct SiteView {
    pub id: Seq<char>,
    pub fingerprint: Seq<char>,
    pub language: Language,
    pub path: Seq<char>,
    pub kind: Seq<char>,
    pub disposition: Disposition,
    pub reason: Option<Seq<char>>,
    pub evidence: EvidenceView,
}

impl View for Site {
    type V = SiteView;

    open spec fn view(&self) -> SiteView {
        SiteView {
            id: self.id@,
            fingerprint: self.fingerprint@,
            language: self.language,
            path: self.path@,
            kind: self.kind@,
            disposition: self.disposition,
            reason: self.reason.deep_view(),
            evidence: self.evidence@,
        }
    }
}

impl DeepView for Site {
    type V = SiteView;

    open spec fn deep_view(&self) -> SiteView {
        self@
    }
}

/// The registry entry that a newly discovered candidate receives.
pub open spec fn unreviewed_site(candidate: CandidateView) -> SiteView {
    SiteView {
        id: candidate.fingerprint,
        fingerprint: candidate.fingerprint,
        language: candidate.language,
        path: candidate.path,
        kind: candidate.kind,
        disposition: Disposition::Unreviewed,
        reason: None,
        evidence: EvidenceView {
            typed_context: None,
            named_rules: None,
            outcomes_tested: None,
            trace_tested: None,
        },
    }
}

impl Site {
    pub fn unreviewed(candidate: &Candidate) -> (r: Site)
        ensures
            r@ == unreviewed_site(candidate@),
    {
        Site {
            id: candidate.fingerprint.clone(),
            fingerprint: candidate.fingerprint.clone(),
            language: candidate.language,
            path: candidate.path.clone(),
            kind: candidate.kind.clone(),
            disposition: Disposition::Unreviewed,
            reason: None,
            evidence: Evidence::new_empty(),
        }
    }
}

#[derive(Clone, Debug)]
pub struct Registry {
    pub schema_version: u32,
    pub includes: Vec<String>,
    pub scope_manifest_digest: Option<String>,
    pub sites: Vec<Site>,
}

pub struct RegistryView {
    pub schema_version: u32,
    pub includes: Seq<Seq<char>>,
    pub scope_manifest_digest: Option<Seq<char>>,
    pub sites: Seq<SiteView>,
}

impl View for Registry {
    type V = RegistryView;

    open spec fn view(&self) -> RegistryView {
        RegistryView {
            schema_version: self.schema_version,
            includes: self.includes.deep_view(),
            scope_manifest_digest: self.scope_manifest_digest.deep_view(),
            sites: self.sites.deep_view(),
        }
    }
}

impl Default for Registry {
    fn default() -> (r: Registry)
        ensures
            r.schema_version == SCHEMA_VERSION,
            r.includes@.len() == 0,
            r.scope_manifest_digest is None,
            r.sites@.len() == 0,
    {
        Registry {
            schema_version: SCHEMA_VERSION,
            includes: Vec::new(),
            scope_manifest_digest: None,
            sites: Vec::new(),
        }
    }
}

/// The evidence-coverage report; the percentage itself is
/// `earned_points * 100 / possible_points` where `possible_points > 0`.
#[derive(Clone, Debug)]
pub struct MetricReport {
    pub schema_version: u32,
    pub root: String,
    pub includes: Vec<String>,
    pub scope_manifest_digest: Option<String>,
    pub scope_issues: Vec<ScopeIssue>,
    pub scanned_candidates: usize,
    pub registered_sites: usize,
    pub eligible: usize,
    pub excluded: usize,
    pub unreviewed: usize,
    pub newly_found: usize,
    pub missing_legacy_anchors: usize,
    pub parse_issues: Vec<ParseIssue>,
    pub earned_points: usize,
    pub possible_points: usize,
    pub provisional: bool,
}

pub struct MetricReportView {
    pub schema_version: u32,
    pub root: Seq<char>,
    pub includes: Seq<Seq<char>>,
    pub scope_manifest_digest: Option<Seq<char>>,
    pub scope_issues: Seq<IssueView>,
    pub scanned_candidates: usize,
    pub registered_sites: usize,
    pub eligible: usize,
    pub excluded: usize,
    pub unreviewed: usize,
    pub newly_found: usize,
    pub missing_legacy_anchors: usize,
    pub parse_issues: Seq<IssueView>,
    pub earned_points: usize,
    pub possible_points: usize,
    pub provisional: bool,
}

impl View for MetricReport {
    type V = MetricReportView;

    open spec fn view(&self) -> MetricReportView {
        MetricReportView {
            schema_version: self.schema_version,
            root: self.root@,
            includes: self.includes.deep_view(),
            scope_manifest_digest: self.scope_manifest_digest.deep_view(),
            scope_issues: self.scope_issues.deep_view(),
            scanned_candidates: self.scanned_candidates,
            registered_sites: self.registered_sites,
            eligible: self.eligible,
            excluded: self.excluded,
            unreviewed: self.unreviewed,
            newly_found: self.newly_found,
            missing_legacy_anchors: self.missing_legacy_anchors,
            parse_issues: self.parse_issues.deep_view(),
            earned_points: self.earned_points,
            possible_points: self.possible_points,
            provisional: self.provisional,
        }
    }
}

#[derive(Clone, Copy, Debug, PartialEq, Eq, Structural)]
pub enum LiveState {
    Ratio,
    Complete,
    NotApplicable,
}

impl LiveState {
    pub open spec fn label_text(self) -> Seq<char> {
        match self {
            LiveState::Ratio => "ratio"@,
            LiveState::Complete => "complete"@,
            LiveState::NotApplicable => "not_applicable"@,
        }
    }

    pub fn label(self) -> (r: &'static str)
        ensures
            r@ == self.label_text(),
    {
        match self {
            LiveState::Ratio => "ratio",
            LiveState::Complete => "complete",
            LiveState::NotApplicable => "not_applicable",
        }
    }
}

pub struct LiveMetricReportView {
    pub schema_version: u32,
    pub counting_rule_version: u32,
    pub root: Seq<char>,
    pub includes: Seq<Seq<char>>,
    pub scope_manifest_digest: Option<Seq<char>>,
    pub scope_issues: Seq<IssueView>,
    pub scope_review_required: bool,
    pub application_files: usize,
    pub excluded_files: usize,
    pub source_revision: Option<Seq<char>>,
    pub source_digest: Seq<char>,
    pub scanned_candidates: usize,
    pub covered_candidates: usize,
    pub reviewed_exclusions: usize,
    pub specification_definitions: usize,
    pub live_specifications: usize,
    pub dead_specifications: usize,
    pub unknown_specifications: usize,
    pub remaining_opportunities: usize,
    pub state: LiveState,
    pub provisional: bool,
    pub parse_issues: Seq<IssueView>,
}

/// The live `S / U` report; the ratio itself is
/// `specification_definitions / remaining_opportunities` where the latter is positive.
#[derive(Clone, Debug)]
pub struct LiveMetricReport {
    pub schema_version: u32,
    pub counting_rule_version: u32,
    pub root: String,
    pub includes: Vec<String>,
    pub scope_manifest_digest: Option<String>,
    pub scope_issues: Vec<ScopeIssue>,
    pub scope_review_required: bool,
    pub application_files: usize,
    pub excluded_files: usize,
    pub source_revision: Option<String>,
    pub source_digest: String,
    pub scanned_candidates: usize,
    pub covered_candidates: usize,
    pub reviewed_exclusions: usize,
    pub specification_definitions: usize,
    pub live_specifications: usize,
    pub dead_specifications: usize,
    pub unknown_specifications: usize,
    pub remaining_opportunities: usize,
    pub state: LiveState,
    pub provisional: bool,
    pub parse_issues: Vec<ParseIssue>,
}

impl View for LiveMetricReport {
    type V = LiveMetricReportView;

    open spec fn view(&self) -> LiveMetricReportView {
        LiveMetricReportView {
            schema_version: self.schema_version,
            counting_rule_version: self.counting_rule_version,
            root: self.root@,
            includes: self.includes.deep_view(),
            scope_manifest_digest: self.scope_manifest_digest.deep_view(),
            scope_issues: self.scope_issues.deep_view(),
            scope_review_required: self.scope_review_required,
            application_files: self.application_files,
            excluded_files: self.excluded_files,
            source_revision: self.source_revision.deep_view(),
            source_digest: self.source_digest@,
            scanned_candidates: self.scanned_candidates,
            covered_candidates: self.covered_candidates,
            reviewed_exclusions: self.reviewed_exclusions,
            specification_definitions: self.specification_definitions,
            live_specifications: self.live_specifications,
            dead_specifications: self.dead_specifications,
            unknown_specifications: self.unknown_specifications,
            remaining_opportunities: self.remaining_opportunities,
            state: self.state,
            provisional: self.provisional,
            parse_issues: self.parse_issues.deep_view(),
        }
    }
}

/// A copy of a list of strings.
pub fn copy_strings(items: &Vec<String>) -> (r: Vec<String>)
    ensures
        r.deep_view() == items.deep_view(),
{
    let mut r: Vec<String> = Vec::new();
    let mut i: usize = 0;
    while i < items.len()
        invariant
            i <= items@.len(),
            r.deep_view() =~= items.deep_view().take(i as int),
        decreases items@.len() - i,
    {
        let ghost before = r.deep_view();
        r.push(items[i].clone());
        assert(r.deep_view() =~= before.push(items.deep_view()[i as int]));
        assert(items.deep_view().take(i + 1) =~= items.deep_view().take(i as int).push(
            items.deep_view()[i as int],
        ));
        i = i + 1;
    }
    assert(items.deep_view().take(i as int) =~= items.deep_view());
    r
}

/// A copy of an optional string.
pub fn copy_text(item: &Option<String>) -> (r: Option<String>)
    ensures
        r.deep_view() == item.deep_view(),
{
    match item {
        Some(text) => Some(text.clone()),
        None => None,
    }
}

/// A copy of a list of parse issues.
pub fn copy_parse_issues(items: &Vec<ParseIssue>) -> (r: Vec<ParseIssue>)
    ensures
        r.deep_view() == items.deep_view(),
{
    let mut r: Vec<ParseIssue> = Vec::new();
    let mut i: usize = 0;
    while i < items.len()
        invariant
            i <= items@.len(),
            r.deep_view() =~= items.deep_view().take(i as int),
        decreases items@.len() - i,
    {
        let ghost before = r.deep_view();
        r.push(ParseIssue { path: items[i].path.clone(), message: items[i].message.clone() });
        assert(r.deep_view() =~= before.push(items.deep_view()[i as int]));
        assert(items.deep_view().take(i + 1) =~= items.deep_view().take(i as int).push(
            items.deep_view()[i as int],
        ));
        i = i + 1;
    }
    assert(items.deep_view().take(i as int) =~= items.deep_view());
    r
}

/// A copy of a list of scope issues.
pub fn copy_scope_issues(items: &Vec<ScopeIssue>) -> (r: Vec<ScopeIssue>)
    ensures
        r.deep_view() == items.deep_view(),
{
    let mut r: Vec<ScopeIssue> = Vec::new();
    let mut i: usize = 0;
    while i < items.len()
        invariant
            i <= items@.len(),
            r.deep_view() =~= items.deep_view().take(i as int),
        decreases items@.len() - i,
    {
        let ghost before = r.deep_view();
        r.push(ScopeIssue { path: items[i].path.clone(), message: items[i].message.clone() });
        assert(r.deep_view() =~= before.push(items.deep_view()[i as int]));
        assert(items.deep_view().take(i + 1) =~= items.deep_view().take(i as int).push(
            items.deep_view()[i as int],
        ));
        i = i + 1;
    }
    assert(items.deep_view().take(i as int) =~= items.deep_view());
    r
}

} // verus!
