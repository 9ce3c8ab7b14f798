//! The durable site registry: adding newly discovered candidates, validating reviewed entries
//! and the evidence-coverage report.
use vstd::prelude::*;

use crate::model::{
    Candidate, CandidateView, Disposition, MetricReport, MetricReportView, Registry, RegistryView,
    ScanReport, ScanReportView, Site, SiteView, SCHEMA_VERSION, unreviewed_site,
};
use crate::scan::{includes_result, lies_within, normalize_includes, path_within, ScanError};
use crate::text::{
    contains_sub, copy_range, find_any, find_sub_exec, lemma_find_any_bounds, position_of_any,
    text_equal, to_chars, trim, trimmed,
};

verus! {

/// Why the registry could not be updated or measured.
#[derive(Clone, Debug)]
pub enum MetricError {
    PartialScan { issues: usize },
    UnsupportedSchema { version: u32 },
    ScopeMismatch,
    /// A scope path is empty, absolute or leaves the root.
    InvalidSelection { selection: String },
    /// A registry of the whole root cannot be narrowed to some paths.
    CannotNarrow,
    /// The paths given differ from the registry's scope.
    SelectionMismatch,
    EmptySiteId,
    DuplicateSiteId { id: String },
    DuplicateFingerprint { fingerprint: String },
    ExcludedWithoutReason { id: String },
    ExcludedWithPoints { id: String },
    UnreviewedWithPoints { id: String },
    EmptyReference { id: String, criterion: String },
    EvidenceMissing { id: String, criterion: String, path: String },
    EvidenceOutsideRoot { id: String, criterion: String },
    EvidenceNotFile { id: String, criterion: String },
    EvidenceUnreadable { id: String, criterion: String, path: String },
    MarkerNotFound { id: String, criterion: String, reference: String },
}

pub enum MetricErrorView {
    PartialScan { issues: usize },
    UnsupportedSchema { version: u32 },
    ScopeMismatch,
    InvalidSelection { selection: Seq<char> },
    CannotNarrow,
    SelectionMismatch,
    EmptySiteId,
    DuplicateSiteId { id: Seq<char> },
    DuplicateFingerprint { fingerprint: Seq<char> },
    ExcludedWithoutReason { id: Seq<char> },
    ExcludedWithPoints { id: Seq<char> },
    UnreviewedWithPoints { id: Seq<char> },
    EmptyReference { id: Seq<char>, criterion: Seq<char> },
    EvidenceMissing { id: Seq<char>, criterion: Seq<char>, path: Seq<char> },
    EvidenceOutsideRoot { id: Seq<char>, criterion: Seq<char> },
    EvidenceNotFile { id: Seq<char>, criterion: Seq<char> },
    EvidenceUnreadable { id: Seq<char>, criterion: Seq<char>, path: Seq<char> },
    MarkerNotFound { id: Seq<char>, criterion: Seq<char>, reference: Seq<char> },
}

impl View for MetricError {
    type V = MetricErrorView;

    open spec fn view(&self) -> MetricErrorView {
        match self {
            MetricError::PartialScan { issues } => MetricErrorView::PartialScan { issues: *issues },
            MetricError::UnsupportedSchema { version } => MetricErrorView::UnsupportedSchema {
                version: *version,
            },
            MetricError::ScopeMismatch => MetricErrorView::ScopeMismatch,
            MetricError::InvalidSelection { selection } => MetricErrorView::InvalidSelection {
                selection: selection@,
            },
            MetricError::CannotNarrow => MetricErrorView::CannotNarrow,
            MetricError::SelectionMismatch => MetricErrorView::SelectionMismatch,
            MetricError::EmptySiteId => MetricErrorView::EmptySiteId,
            MetricError::DuplicateSiteId { id } => MetricErrorView::DuplicateSiteId { id: id@ },
            MetricError::DuplicateFingerprint { fingerprint } =>
                MetricErrorView::DuplicateFingerprint { fingerprint: fingerprint@ },
            MetricError::ExcludedWithoutReason { id } => MetricErrorView::ExcludedWithoutReason {
                id: id@,
            },
            MetricError::ExcludedWithPoints { id } => MetricErrorView::ExcludedWithPoints {
                id: id@,
            },
            MetricError::UnreviewedWithPoints { id } => MetricErrorView::UnreviewedWithPoints {
                id: id@,
            },
            MetricError::EmptyReference { id, criterion } => MetricErrorView::EmptyReference {
                id: id@,
                criterion: criterion@,
            },
            MetricError::EvidenceMissing { id, criterion, path } =>
                MetricErrorView::EvidenceMissing { id: id@, criterion: criterion@, path: path@ },
            MetricError::EvidenceOutsideRoot { id, criterion } =>
                MetricErrorView::EvidenceOutsideRoot { id: id@, criterion: criterion@ },
            MetricError::EvidenceNotFile { id, criterion } => MetricErrorView::EvidenceNotFile {
                id: id@,
                criterion: criterion@,
            },
            MetricError::EvidenceUnreadable { id, criterion, path } =>
                MetricErrorView::EvidenceUnreadable {
                    id: id@,
                    criterion: criterion@,
                    path: path@,
                },
            MetricError::MarkerNotFound { id, criterion, reference } =>
                MetricErrorView::MarkerNotFound {
                    id: id@,
                    criterion: criterion@,
                    reference: reference@,
                },
        }
    }
}

/// The fingerprints of the sites, in registry order.
pub open spec fn fingerprints(sites: Seq<SiteView>) -> Seq<Seq<char>> {
    sites.map_values(|site: SiteView| site.fingerprint)
}

/// The sites after registering `candidates` in scan order: a candidate whose fingerprint is
/// not registered yet is appended as an unreviewed site; every other candidate is skipped.
pub open spec fn synced_sites(sites: Seq<SiteView>, candidates: Seq<CandidateView>) -> Seq<
    SiteView,
>
    decreases candidates.len(),
{
    if candidates.len() == 0 {
        sites
    } else {
        let earlier = synced_sites(sites, candidates.drop_last());
        if fingerprints(earlier).contains(candidates.last().fingerprint) {
            earlier
        } else {
            earlier.push(unreviewed_site(candidates.last()))
        }
    }
}

/// The error that keeps `sync` from changing the registry, if any, in the order it is checked.
pub open spec fn sync_error(scan: ScanReportView, registry: RegistryView, allow_partial: bool) -> Option<
    MetricErrorView,
> {
    if !allow_partial && scan.parse_issues.len() > 0 {
        Some(MetricErrorView::PartialScan { issues: scan.parse_issues.len() as usize })
    } else if registry.schema_version != SCHEMA_VERSION {
        Some(MetricErrorView::UnsupportedSchema { version: registry.schema_version })
    } else if registry.includes != scan.includes {
        Some(MetricErrorView::ScopeMismatch)
    } else {
        None
    }
}

fn registered(sites: &Vec<Site>, fingerprint: &str) -> (r: bool)
    ensures
        r == fingerprints(sites.deep_view()).contains(fingerprint@),
{
    let ghost all = fingerprints(sites.deep_view());
    let mut i: usize = 0;
    while i < sites.len()
        invariant
            i <= sites@.len(),
            all == fingerprints(sites.deep_view()),
            all.len() == sites@.len(),
            forall|j: int| 0 <= j < i ==> all[j] != fingerprint@,
        decreases sites@.len() - i,
    {
        assert(all[i as int] == sites@[i as int].fingerprint@);
        if text_equal(sites[i].fingerprint.as_str(), fingerprint) {
            assert(all[i as int] == fingerprint@);
            return true;
        }
        i = i + 1;
    }
    false
}

pub fn same_includes(a: &Vec<String>, b: &Vec<String>) -> (r: bool)
    ensures
        r == (a.deep_view() == b.deep_view()),
{
    if a.len() != b.len() {
        assert(a.deep_view().len() != b.deep_view().len());
        return false;
    }
    let mut i: usize = 0;
    while i < a.len()
        invariant
            i <= a@.len(),
            a@.len() == b@.len(),
            forall|j: int| 0 <= j < i ==> a.deep_view()[j] == b.deep_view()[j],
        decreases a@.len() - i,
    {
        if !text_equal(a[i].as_str(), b[i].as_str()) {
            assert(a.deep_view()[i as int] != b.deep_view()[i as int]);
            return false;
        }
        i = i + 1;
    }
    assert(a.deep_view() =~= b.deep_view());
    true
}

/// Registers the scan's new candidates as unreviewed sites and returns how many were added.
/// Refuses a scan with parse issues unless `allow_partial`, a registry of another schema
/// version and a scan of another scope, leaving the registry unchanged.
pub fn sync(scan: &ScanReport, registry: &mut Registry, allow_partial: bool) -> (r: Result<
    usize,
    MetricError,
>)
    ensures
        match sync_error(scan@, old(registry)@, allow_partial) {
            Some(error) => r matches Err(e) && e@ == error && final(registry)@ == old(registry)@,
            None => r matches Ok(added) && final(registry)@ == (RegistryView {
                sites: synced_sites(old(registry)@.sites, scan@.candidates),
                ..old(registry)@
            }) && added == synced_sites(old(registry)@.sites, scan@.candidates).len()
                - old(registry)@.sites.len(),
        },
{
    if !allow_partial && scan.parse_issues.len() > 0 {
        return Err(MetricError::PartialScan { issues: scan.parse_issues.len() });
    }
    if registry.schema_version != SCHEMA_VERSION {
        return Err(MetricError::UnsupportedSchema { version: registry.schema_version });
    }
    if !same_includes(&registry.includes, &scan.includes) {
        return Err(MetricError::ScopeMismatch);
    }
    let ghost start = registry@;
    let ghost candidates = scan@.candidates;
    let mut added: usize = 0;
    let mut i: usize = 0;
    while i < scan.candidates.len()
        invariant
            i <= scan.candidates@.len(),
            candidates == scan.candidates.deep_view(),
            registry@ == (RegistryView {
                sites: synced_sites(start.sites, candidates.take(i as int)),
                ..start
            }),
            added == registry@.sites.len() - start.sites.len(),
            registry@.sites.len() <= start.sites.len() + i,
        decreases scan.candidates@.len() - i,
    {
        let candidate = &scan.candidates[i];
        assert(candidates.take(i + 1).drop_last() =~= candidates.take(i as int));
        assert(candidates.take(i + 1).last() == candidate@);
        if !registered(&registry.sites, candidate.fingerprint.as_str()) {
            let ghost before = registry.sites.deep_view();
            registry.sites.push(Site::unreviewed(candidate));
            assert(registry.sites.deep_view() =~= before.push(unreviewed_site(candidate@)));
            added = added + 1;
        }
        i = i + 1;
    }
    assert(candidates.take(i as int) =~= candidates);
    Ok(added)
}

/// A reference that earns no point: it holds nothing but whitespace.
pub open spec fn is_blank(text: Seq<char>) -> bool {
    trim(text).len() == 0
}

/// The path part of an evidence reference: the text before its first `#`.
pub open spec fn reference_path(reference: Seq<char>) -> Seq<char> {
    reference.subrange(0, find_any(reference, seq!['#'], 0))
}

/// The marker part of an evidence reference: the text after its first `#`, or nothing.
pub open spec fn reference_marker(reference: Seq<char>) -> Seq<char> {
    let split = find_any(reference, seq!['#'], 0);
    if split < reference.len() {
        reference.subrange(split + 1, reference.len() as int)
    } else {
        Seq::empty()
    }
}

/// An evidence reference of an eligible site, which must name a file under the scanned root
/// and, when it has a marker, a file that holds the marker.
#[derive(Clone, Debug)]
pub struct EvidenceReference {
    pub site_id: String,
    pub criterion: String,
    pub reference: String,
    pub path: String,
    pub marker: String,
}

pub struct ReferenceView {
    pub site_id: Seq<char>,
    pub criterion: Seq<char>,
    pub reference: Seq<char>,
    pub path: Seq<char>,
    pub marker: Seq<char>,
}

impl View for EvidenceReference {
    type V = ReferenceView;

    open spec fn view(&self) -> ReferenceView {
        ReferenceView {
            site_id: self.site_id@,
            criterion: self.criterion@,
            reference: self.reference@,
            path: self.path@,
            marker: self.marker@,
        }
    }
}

impl DeepView for EvidenceReference {
    type V = ReferenceView;

    open spec fn deep_view(&self) -> ReferenceView {
        self@
    }
}

/// What was found on disk for one evidence reference.
#[derive(Clone, Copy, Debug, PartialEq, Eq, Structural)]
pub enum ReferenceCheck {
    Found,
    Missing,
    OutsideRoot,
    NotFile,
    Unreadable,
    MarkerMissing,
}

/// What a reference's file shows: missing where its path did not resolve, outside the root
/// where the resolved path does not lie within the root, not a file, then found where the
/// marker is empty or occurs in the file's text, unreadable where the text could not be read.
pub open spec fn reference_check_of(
    root: Seq<char>,
    resolved: Option<Seq<char>>,
    is_file: bool,
    marker: Seq<char>,
    text: Option<Seq<char>>,
) -> ReferenceCheck {
    match resolved {
        None => ReferenceCheck::Missing,
        Some(path) => if !path_within(root, path) {
            ReferenceCheck::OutsideRoot
        } else if !is_file {
            ReferenceCheck::NotFile
        } else if marker.len() == 0 {
            ReferenceCheck::Found
        } else {
            match text {
                Some(text) => if contains_sub(text, marker) {
                    ReferenceCheck::Found
                } else {
                    ReferenceCheck::MarkerMissing
                },
                None => ReferenceCheck::Unreadable,
            }
        },
    }
}

/// Decides what the disk showed of one evidence reference: `root` is the canonical scan
/// root, `resolved` the canonical path the reference names (where it resolved), `is_file`
/// whether that is a file, and `text` the file's text where it could be read.
pub fn reference_check(
    root: &str,
    resolved: Option<&str>,
    is_file: bool,
    marker: &str,
    text: Option<&str>,
) -> (r: ReferenceCheck)
    ensures
        r == reference_check_of(
            root@,
            match resolved {
                Some(path) => Some(path@),
                None => None,
            },
            is_file,
            marker@,
            match text {
                Some(text) => Some(text@),
                None => None,
            },
        ),
{
    let path = match resolved {
        None => return ReferenceCheck::Missing,
        Some(path) => path,
    };
    if !lies_within(root, path) {
        return ReferenceCheck::OutsideRoot;
    }
    if !is_file {
        return ReferenceCheck::NotFile;
    }
    let wanted = to_chars(marker);
    if wanted.len() == 0 {
        return ReferenceCheck::Found;
    }
    match text {
        Some(text) => {
            let chars = to_chars(text);
            if find_sub_exec(chars.as_slice(), wanted.as_slice(), 0).is_some() {
                ReferenceCheck::Found
            } else {
                ReferenceCheck::MarkerMissing
            }
        },
        None => ReferenceCheck::Unreadable,
    }
}

pub open spec fn reference_of(id: Seq<char>, criterion: Seq<char>, text: Seq<char>) -> ReferenceView {
    ReferenceView {
        site_id: id,
        criterion,
        reference: text,
        path: reference_path(text),
        marker: reference_marker(text),
    }
}

/// The references, in criterion order, that need a check on disk.
pub open spec fn entry_references(id: Seq<char>, entries: Seq<(Seq<char>, Option<Seq<char>>)>) -> Seq<
    ReferenceView,
>
    decreases entries.len(),
{
    if entries.len() == 0 {
        Seq::empty()
    } else {
        let first = match entries[0].1 {
            Some(text) => if is_blank(text) {
                Seq::empty()
            } else {
                seq![reference_of(id, entries[0].0, text)]
            },
            None => Seq::empty(),
        };
        first + entry_references(id, entries.drop_first())
    }
}

pub open spec fn site_references(site: SiteView) -> Seq<ReferenceView> {
    if site.disposition == Disposition::Eligible {
        entry_references(site.id, site.evidence.entries())
    } else {
        Seq::empty()
    }
}

/// Every reference of every eligible site, in registry order.
pub open spec fn reference_list(sites: Seq<SiteView>) -> Seq<ReferenceView>
    decreases sites.len(),
{
    if sites.len() == 0 {
        Seq::empty()
    } else {
        reference_list(sites.drop_last()) + site_references(sites.last())
    }
}

/// The error that a check on disk reports, if any.
pub open spec fn check_error(reference: ReferenceView, check: ReferenceCheck) -> Option<
    MetricErrorView,
> {
    match check {
        ReferenceCheck::Found => None,
        ReferenceCheck::Missing => Some(
            MetricErrorView::EvidenceMissing {
                id: reference.site_id,
                criterion: reference.criterion,
                path: reference.path,
            },
        ),
        ReferenceCheck::OutsideRoot => Some(
            MetricErrorView::EvidenceOutsideRoot {
                id: reference.site_id,
                criterion: reference.criterion,
            },
        ),
        ReferenceCheck::NotFile => Some(
            MetricErrorView::EvidenceNotFile {
                id: reference.site_id,
                criterion: reference.criterion,
            },
        ),
        ReferenceCheck::Unreadable => Some(
            MetricErrorView::EvidenceUnreadable {
                id: reference.site_id,
                criterion: reference.criterion,
                path: reference.path,
            },
        ),
        ReferenceCheck::MarkerMissing => Some(
            MetricErrorView::MarkerNotFound {
                id: reference.site_id,
                criterion: reference.criterion,
                reference: reference.reference,
            },
        ),
    }
}

/// The first error among an eligible site's references, given the checks of its non-blank
/// references in order.
pub open spec fn entries_error(
    id: Seq<char>,
    entries: Seq<(Seq<char>, Option<Seq<char>>)>,
    checks: Seq<ReferenceCheck>,
) -> Option<MetricErrorView>
    decreases entries.len(),
{
    if entries.len() == 0 {
        None
    } else {
        match entries[0].1 {
            None => entries_error(id, entries.drop_first(), checks),
            Some(text) => if is_blank(text) {
                Some(MetricErrorView::EmptyReference { id, criterion: entries[0].0 })
            } else {
                match check_error(reference_of(id, entries[0].0, text), checks[0]) {
                    Some(error) => Some(error),
                    None => entries_error(id, entries.drop_first(), checks.drop_first()),
                }
            },
        }
    }
}

pub open spec fn site_ids(sites: Seq<SiteView>) -> Seq<Seq<char>> {
    sites.map_values(|site: SiteView| site.id)
}

/// The first rule that `site` breaks, given the sites before it and the checks of its
/// references.
pub open spec fn site_error(prior: Seq<SiteView>, site: SiteView, checks: Seq<ReferenceCheck>) -> Option<
    MetricErrorView,
> {
    if is_blank(site.id) {
        Some(MetricErrorView::EmptySiteId)
    } else if site_ids(prior).contains(site.id) {
        Some(MetricErrorView::DuplicateSiteId { id: site.id })
    } else if fingerprints(prior).contains(site.fingerprint) {
        Some(MetricErrorView::DuplicateFingerprint { fingerprint: site.fingerprint })
    } else {
        match site.disposition {
            Disposition::Excluded => if match site.reason {
                Some(reason) => is_blank(reason),
                None => true,
            } {
                Some(MetricErrorView::ExcludedWithoutReason { id: site.id })
            } else if site.evidence.points() > 0 {
                Some(MetricErrorView::ExcludedWithPoints { id: site.id })
            } else {
                None
            },
            Disposition::Unreviewed => if site.evidence.points() > 0 {
                Some(MetricErrorView::UnreviewedWithPoints { id: site.id })
            } else {
                None
            },
            Disposition::Eligible => entries_error(site.id, site.evidence.entries(), checks),
        }
    }
}

/// The first rule that the sites break, in registry order; `checks` holds the result for each
/// entry of `reference_list(sites)`.
pub open spec fn sites_error(sites: Seq<SiteView>, checks: Seq<ReferenceCheck>) -> Option<
    MetricErrorView,
>
    decreases sites.len(),
{
    if sites.len() == 0 {
        None
    } else {
        match sites_error(sites.drop_last(), checks) {
            Some(error) => Some(error),
            None => site_error(
                sites.drop_last(),
                sites.last(),
                checks.subrange(reference_list(sites.drop_last()).len() as int, checks.len() as int),
            ),
        }
    }
}

/// The first problem of a registry: its schema version, then its sites.
pub open spec fn registry_error(registry: RegistryView, checks: Seq<ReferenceCheck>) -> Option<
    MetricErrorView,
> {
    if registry.schema_version != SCHEMA_VERSION {
        Some(MetricErrorView::UnsupportedSchema { version: registry.schema_version })
    } else {
        sites_error(registry.sites, checks)
    }
}

proof fn lemma_entry_references_len(id: Seq<char>, entries: Seq<(Seq<char>, Option<Seq<char>>)>)
    ensures
        entry_references(id, entries).len() <= entries.len(),
    decreases entries.len(),
{
    if entries.len() > 0 {
        lemma_entry_references_len(id, entries.drop_first());
    }
}

fn blank(text: &str) -> (r: bool)
    ensures
        r == is_blank(text@),
{
    let chars = to_chars(text);
    let inner = trimmed(chars.as_slice());
    inner.len() == 0
}

fn reference_parts(id: &String, criterion: &str, text: &str) -> (r: EvidenceReference)
    ensures
        r@ == reference_of(id@, criterion@, text@),
{
    let chars = to_chars(text);
    let hash = vec!['#'];
    proof {
        lemma_find_any_bounds(chars@, hash@, 0);
    }
    let split = position_of_any(chars.as_slice(), hash.as_slice(), 0);
    let path = copy_range(chars.as_slice(), 0, split);
    let marker = if split < chars.len() {
        copy_range(chars.as_slice(), split + 1, chars.len())
    } else {
        Vec::new()
    };
    assert(hash@ == seq!['#']);
    proof {
        if split >= chars@.len() {
            assert(marker@ =~= Seq::<char>::empty());
        }
    }
    EvidenceReference {
        site_id: id.clone(),
        criterion: criterion.to_owned(),
        reference: text.to_owned(),
        path: crate::text::string_from(path.as_slice()),
        marker: crate::text::string_from(marker.as_slice()),
    }
}

/// The evidence references of the registry's eligible sites that a check on disk must
/// confirm, in registry and criterion order; blank references are left out, since they are
/// refused without one.
pub fn evidence_references(registry: &Registry) -> (r: Vec<EvidenceReference>)
    ensures
        r.deep_view() == reference_list(registry@.sites),
{
    let ghost sites = registry@.sites;
    let mut r: Vec<EvidenceReference> = Vec::new();
    let mut k: usize = 0;
    while k < registry.sites.len()
        invariant
            k <= registry.sites@.len(),
            sites == registry@.sites,
            r.deep_view() == reference_list(sites.take(k as int)),
        decreases registry.sites@.len() - k,
    {
        let site = &registry.sites[k];
        assert(sites.take(k + 1).drop_last() =~= sites.take(k as int));
        assert(sites.take(k + 1).last() == site@);
        if site.disposition == Disposition::Eligible {
            let entries = site.evidence.entries();
            let ghost all = site@.evidence.entries();
            let ghost start = r.deep_view();
            let mut j: usize = 0;
            assert(all.skip(0) =~= all);
            while j < 4
                invariant
                    j <= 4,
                    all == site@.evidence.entries(),
                    all.len() == 4,
                    forall|m: int|
                        0 <= m < 4 ==> (#[trigger] entries@[m]).0@ == all[m].0
                            && crate::model::optional_text_view(entries@[m].1) == all[m].1,
                    start + entry_references(site@.id, all) == r.deep_view() + entry_references(
                        site@.id,
                        all.skip(j as int),
                    ),
                decreases 4 - j,
            {
                let (criterion, reference) = entries[j];
                assert(all.skip(j as int).drop_first() =~= all.skip(j + 1));
                assert(all.skip(j as int)[0] == all[j as int]);
                match reference {
                    Some(text) => {
                        if !blank(text) {
                            let ghost before = r.deep_view();
                            r.push(reference_parts(&site.id, criterion, text));
                            assert(r.deep_view() =~= before.push(
                                reference_of(site@.id, all[j as int].0, text@),
                            ));
                        }
                    },
                    None => {},
                }
                j = j + 1;
            }
            assert(all.skip(4) =~= Seq::<(Seq<char>, Option<Seq<char>>)>::empty());
        }
        k = k + 1;
    }
    assert(sites.take(k as int) =~= sites);
    r
}

/// An optional error and its expected view agree.
pub open spec fn error_matches(r: Option<MetricError>, expected: Option<MetricErrorView>) -> bool {
    match (r, expected) {
        (Some(error), Some(view)) => error@ == view,
        (None, None) => true,
        _ => false,
    }
}

/// The references of the first `k` sites come first among those of all sites.
proof fn lemma_reference_list_prefix(sites: Seq<SiteView>, k: int)
    requires
        0 <= k <= sites.len(),
    ensures
        reference_list(sites.take(k)).len() <= reference_list(sites).len(),
        reference_list(sites).take(reference_list(sites.take(k)).len() as int) == reference_list(
            sites.take(k),
        ),
    decreases sites.len(),
{
    if k == sites.len() {
        assert(sites.take(k) =~= sites);
        assert(reference_list(sites).take(reference_list(sites).len() as int) =~= reference_list(
            sites,
        ));
    } else {
        let shorter = sites.drop_last();
        assert(shorter.take(k) =~= sites.take(k));
        lemma_reference_list_prefix(shorter, k);
        let prefix = reference_list(sites.take(k));
        assert(reference_list(sites).take(prefix.len() as int) =~= reference_list(shorter).take(
            prefix.len() as int,
        ));
    }
}

/// An error among the first `k` sites is the error of all of them.
proof fn lemma_sites_error_prefix(sites: Seq<SiteView>, checks: Seq<ReferenceCheck>, k: int)
    requires
        0 <= k <= sites.len(),
        sites_error(sites.take(k), checks) is Some,
    ensures
        sites_error(sites, checks) == sites_error(sites.take(k), checks),
    decreases sites.len() - k,
{
    if k < sites.len() {
        let longer = sites.take(k + 1);
        assert(longer.drop_last() =~= sites.take(k));
        lemma_sites_error_prefix(sites, checks, k + 1);
    } else {
        assert(sites.take(k) =~= sites);
    }
}

fn id_listed(sites: &Vec<Site>, k: usize, id: &str) -> (r: bool)
    requires
        k <= sites@.len(),
    ensures
        r == site_ids(sites.deep_view().take(k as int)).contains(id@),
{
    let ghost prior = site_ids(sites.deep_view().take(k as int));
    let mut i: usize = 0;
    while i < k
        invariant
            i <= k <= sites@.len(),
            prior == site_ids(sites.deep_view().take(k as int)),
            prior.len() == k,
            forall|j: int| 0 <= j < i ==> prior[j] != id@,
        decreases k - i,
    {
        assert(prior[i as int] == sites@[i as int].id@);
        if text_equal(sites[i].id.as_str(), id) {
            assert(prior[i as int] == id@);
            return true;
        }
        i = i + 1;
    }
    false
}

pub fn fingerprint_listed(sites: &Vec<Site>, k: usize, fingerprint: &str) -> (r: bool)
    requires
        k <= sites@.len(),
    ensures
        r == fingerprints(sites.deep_view().take(k as int)).contains(fingerprint@),
{
    let ghost prior = fingerprints(sites.deep_view().take(k as int));
    let mut i: usize = 0;
    while i < k
        invariant
            i <= k <= sites@.len(),
            prior == fingerprints(sites.deep_view().take(k as int)),
            prior.len() == k,
            forall|j: int| 0 <= j < i ==> prior[j] != fingerprint@,
        decreases k - i,
    {
        assert(prior[i as int] == sites@[i as int].fingerprint@);
        if text_equal(sites[i].fingerprint.as_str(), fingerprint) {
            assert(prior[i as int] == fingerprint@);
            return true;
        }
        i = i + 1;
    }
    false
}

fn check_failure(reference: EvidenceReference, check: ReferenceCheck) -> (r: Option<MetricError>)
    ensures
        error_matches(r, check_error(reference@, check)),
{
    match check {
        ReferenceCheck::Found => None,
        ReferenceCheck::Missing => Some(
            MetricError::EvidenceMissing {
                id: reference.site_id,
                criterion: reference.criterion,
                path: reference.path,
            },
        ),
        ReferenceCheck::OutsideRoot => Some(
            MetricError::EvidenceOutsideRoot {
                id: reference.site_id,
                criterion: reference.criterion,
            },
        ),
        ReferenceCheck::NotFile => Some(
            MetricError::EvidenceNotFile { id: reference.site_id, criterion: reference.criterion },
        ),
        ReferenceCheck::Unreadable => Some(
            MetricError::EvidenceUnreadable {
                id: reference.site_id,
                criterion: reference.criterion,
                path: reference.path,
            },
        ),
        ReferenceCheck::MarkerMissing => Some(
            MetricError::MarkerNotFound {
                id: reference.site_id,
                criterion: reference.criterion,
                reference: reference.reference,
            },
        ),
    }
}

fn eligible_failure(site: &Site, checks: &Vec<ReferenceCheck>, used: usize) -> (r: Option<
    MetricError,
>)
    requires
        used + entry_references(site@.id, site@.evidence.entries()).len() <= checks@.len(),
    ensures
        error_matches(
            r,
            entries_error(
                site@.id,
                site@.evidence.entries(),
                checks@.subrange(used as int, checks@.len() as int),
            ),
        ),
{
    let entries = site.evidence.entries();
    let ghost all = site@.evidence.entries();
    let ghost rest = checks@.subrange(used as int, checks@.len() as int);
    let total = checks.len();
    let mut c = used;
    let mut j: usize = 0;
    assert(all.skip(0) =~= all);
    assert(checks@.subrange(c as int, checks@.len() as int) =~= rest);
    while j < 4
        invariant
            j <= 4,
            all == site@.evidence.entries(),
            rest == checks@.subrange(used as int, checks@.len() as int),
            total == checks@.len(),
            all.len() == 4,
            forall|m: int|
                0 <= m < 4 ==> (#[trigger] entries@[m]).0@ == all[m].0
                    && crate::model::optional_text_view(entries@[m].1) == all[m].1,
            c + entry_references(site@.id, all.skip(j as int)).len() == used + entry_references(
                site@.id,
                all,
            ).len(),
            used + entry_references(site@.id, all).len() <= checks@.len(),
            entries_error(site@.id, all, rest) == entries_error(
                site@.id,
                all.skip(j as int),
                checks@.subrange(c as int, checks@.len() as int),
            ),
        decreases 4 - j,
    {
        let (criterion, reference) = entries[j];
        assert(all.skip(j as int).drop_first() =~= all.skip(j + 1));
        assert(all.skip(j as int)[0] == all[j as int]);
        proof {
            lemma_entry_references_len(site@.id, all.skip(j + 1));
        }
        match reference {
            Some(text) => {
                if blank(text) {
                    return Some(
                        MetricError::EmptyReference {
                            id: site.id.clone(),
                            criterion: criterion.to_owned(),
                        },
                    );
                }
                assert(entry_references(site@.id, all.skip(j as int)) == seq![
                    reference_of(site@.id, all[j as int].0, text@),
                ] + entry_references(site@.id, all.skip(j + 1)));
                let parts = reference_parts(&site.id, criterion, text);
                let ghost tail = checks@.subrange(c as int, checks@.len() as int);
                assert(tail[0] == checks@[c as int]);
                assert(tail.drop_first() =~= checks@.subrange(c + 1, checks@.len() as int));
                let failure = check_failure(parts, checks[c]);
                if failure.is_some() {
                    return failure;
                }
                c = c + 1;
            },
            None => {},
        }
        j = j + 1;
    }
    None
}

fn reference_count(site: &Site) -> (r: usize)
    ensures
        r == site_references(site@).len(),
{
    if site.disposition != Disposition::Eligible {
        return 0;
    }
    let entries = site.evidence.entries();
    let ghost all = site@.evidence.entries();
    let mut count: usize = 0;
    let mut j: usize = 0;
    assert(all.skip(0) =~= all);
    while j < 4
        invariant
            j <= 4,
            all == site@.evidence.entries(),
            all.len() == 4,
            forall|m: int|
                0 <= m < 4 ==> (#[trigger] entries@[m]).0@ == all[m].0
                    && crate::model::optional_text_view(entries@[m].1) == all[m].1,
            count <= j,
            count + entry_references(site@.id, all.skip(j as int)).len() == entry_references(
                site@.id,
                all,
            ).len(),
        decreases 4 - j,
    {
        let (_, reference) = entries[j];
        assert(all.skip(j as int).drop_first() =~= all.skip(j + 1));
        assert(all.skip(j as int)[0] == all[j as int]);
        match reference {
            Some(text) => {
                if !blank(text) {
                    count = count + 1;
                }
            },
            None => {},
        }
        j = j + 1;
    }
    assert(all.skip(4) =~= Seq::<(Seq<char>, Option<Seq<char>>)>::empty());
    count
}

fn site_failure(sites: &Vec<Site>, k: usize, checks: &Vec<ReferenceCheck>, used: usize) -> (r:
    Option<MetricError>)
    requires
        k < sites@.len(),
        used + site_references(sites@[k as int]@).len() <= checks@.len(),
    ensures
        error_matches(
            r,
            site_error(
                sites.deep_view().take(k as int),
                sites@[k as int]@,
                checks@.subrange(used as int, checks@.len() as int),
            ),
        ),
{
    let site = &sites[k];
    if blank(site.id.as_str()) {
        return Some(MetricError::EmptySiteId);
    }
    if id_listed(sites, k, site.id.as_str()) {
        return Some(MetricError::DuplicateSiteId { id: site.id.clone() });
    }
    if fingerprint_listed(sites, k, site.fingerprint.as_str()) {
        return Some(MetricError::DuplicateFingerprint { fingerprint: site.fingerprint.clone() });
    }
    match site.disposition {
        Disposition::Excluded => {
            let without_reason = match &site.reason {
                Some(reason) => blank(reason.as_str()),
                None => true,
            };
            if without_reason {
                Some(MetricError::ExcludedWithoutReason { id: site.id.clone() })
            } else if site.evidence.points() > 0 {
                Some(MetricError::ExcludedWithPoints { id: site.id.clone() })
            } else {
                None
            }
        },
        Disposition::Unreviewed => {
            if site.evidence.points() > 0 {
                Some(MetricError::UnreviewedWithPoints { id: site.id.clone() })
            } else {
                None
            }
        },
        Disposition::Eligible => eligible_failure(site, checks, used),
    }
}

/// Checks the registry's schema version and, in registry order, each site: a non-blank id,
/// unique ids and fingerprints, a reason and no evidence for an excluded site, no evidence
/// for an unreviewed one, and for an eligible one each reference, non-blank and confirmed by
/// its check on disk.
pub fn validate(registry: &Registry, checks: &Vec<ReferenceCheck>) -> (r: Result<(), MetricError>)
    requires
        checks@.len() == reference_list(registry@.sites).len(),
    ensures
        match registry_error(registry@, checks@) {
            Some(error) => r matches Err(e) && e@ == error,
            None => r is Ok,
        },
{
    if registry.schema_version != SCHEMA_VERSION {
        return Err(MetricError::UnsupportedSchema { version: registry.schema_version });
    }
    let ghost sites = registry@.sites;
    let total = checks.len();
    let mut used: usize = 0;
    let mut k: usize = 0;
    while k < registry.sites.len()
        invariant
            k <= registry.sites@.len(),
            sites == registry@.sites,
            registry.schema_version == SCHEMA_VERSION,
            checks@.len() == reference_list(sites).len(),
            total == checks@.len(),
            used == reference_list(sites.take(k as int)).len(),
            sites_error(sites.take(k as int), checks@) is None,
        decreases registry.sites@.len() - k,
    {
        let ghost prefix = sites.take(k + 1);
        assert(prefix.drop_last() =~= sites.take(k as int));
        assert(prefix.last() == registry.sites@[k as int]@);
        proof {
            lemma_reference_list_prefix(sites, k + 1);
        }
        assert(registry.sites.deep_view().take(k as int) == sites.take(k as int));
        assert(reference_list(prefix) == reference_list(sites.take(k as int)) + site_references(
            registry.sites@[k as int]@,
        ));
        assert(reference_list(prefix.drop_last()).len() == used);
        let failure = site_failure(&registry.sites, k, checks, used);
        assert(sites_error(prefix, checks@) == site_error(
            sites.take(k as int),
            registry.sites@[k as int]@,
            checks@.subrange(used as int, checks@.len() as int),
        ));
        match failure {
            Some(error) => {
                proof {
                    lemma_sites_error_prefix(sites, checks@, k + 1);
                }
                return Err(error);
            },
            None => {},
        }
        used = used + reference_count(&registry.sites[k]);
        k = k + 1;
    }
    assert(sites.take(k as int) =~= sites);
    Ok(())
}

/// The number of sites with the given disposition.
pub open spec fn count_disposition(sites: Seq<SiteView>, disposition: Disposition) -> nat
    decreases sites.len(),
{
    if sites.len() == 0 {
        0
    } else {
        count_disposition(sites.drop_last(), disposition) + if sites.last().disposition
            == disposition {
            1nat
        } else {
            0nat
        }
    }
}

/// The evidence points that the eligible sites earn together.
pub open spec fn earned_points(sites: Seq<SiteView>) -> nat
    decreases sites.len(),
{
    if sites.len() == 0 {
        0
    } else {
        earned_points(sites.drop_last()) + if sites.last().disposition == Disposition::Eligible {
            sites.last().evidence.points()
        } else {
            0nat
        }
    }
}

pub open spec fn candidate_fingerprints(candidates: Seq<CandidateView>) -> Seq<Seq<char>> {
    candidates.map_values(|candidate: CandidateView| candidate.fingerprint)
}

/// The number of candidates whose fingerprint no site registers.
pub open spec fn newly_found(candidates: Seq<CandidateView>, sites: Seq<SiteView>) -> nat
    decreases candidates.len(),
{
    if candidates.len() == 0 {
        0
    } else {
        newly_found(candidates.drop_last(), sites) + if fingerprints(sites).contains(
            candidates.last().fingerprint,
        ) {
            0nat
        } else {
            1nat
        }
    }
}

/// An eligible site whose evidence is incomplete and whose fingerprint no current candidate
/// carries any more.
pub open spec fn is_missing_anchor(site: SiteView, candidates: Seq<CandidateView>) -> bool {
    site.disposition == Disposition::Eligible && site.evidence.points() < 4
        && !candidate_fingerprints(candidates).contains(site.fingerprint)
}

pub open spec fn missing_anchors(sites: Seq<SiteView>, candidates: Seq<CandidateView>) -> nat
    decreases sites.len(),
{
    if sites.len() == 0 {
        0
    } else {
        missing_anchors(sites.drop_last(), candidates) + if is_missing_anchor(
            sites.last(),
            candidates,
        ) {
            1nat
        } else {
            0nat
        }
    }
}

/// The first problem that keeps the evidence report from being made.
pub open spec fn measure_error(
    scan: ScanReportView,
    registry: RegistryView,
    checks: Seq<ReferenceCheck>,
) -> Option<MetricErrorView> {
    match registry_error(registry, checks) {
        Some(error) => Some(error),
        None => if registry.includes != scan.includes {
            Some(MetricErrorView::ScopeMismatch)
        } else {
            None
        },
    }
}

/// The evidence-coverage report of a valid registry against a scan.
pub open spec fn evidence_report(scan: ScanReportView, registry: RegistryView) -> MetricReportView {
    let sites = registry.sites;
    let unreviewed = count_disposition(sites, Disposition::Unreviewed);
    let fresh = newly_found(scan.candidates, sites);
    let missing = missing_anchors(sites, scan.candidates);
    MetricReportView {
        schema_version: SCHEMA_VERSION,
        root: scan.root,
        includes: scan.includes,
        scope_manifest_digest: scan.scope_manifest_digest,
        scope_issues: scan.scope_issues,
        scanned_candidates: scan.candidates.len() as usize,
        registered_sites: sites.len() as usize,
        eligible: count_disposition(sites, Disposition::Eligible) as usize,
        excluded: count_disposition(sites, Disposition::Excluded) as usize,
        unreviewed: unreviewed as usize,
        newly_found: fresh as usize,
        missing_legacy_anchors: missing as usize,
        parse_issues: scan.parse_issues,
        earned_points: earned_points(sites) as usize,
        possible_points: (4 * count_disposition(sites, Disposition::Eligible)) as usize,
        provisional: unreviewed > 0 || fresh > 0 || missing > 0 || scan.parse_issues.len() > 0,
    }
}

proof fn lemma_counts_bounded(sites: Seq<SiteView>, candidates: Seq<CandidateView>)
    ensures
        count_disposition(sites, Disposition::Eligible) <= sites.len(),
        count_disposition(sites, Disposition::Excluded) <= sites.len(),
        count_disposition(sites, Disposition::Unreviewed) <= sites.len(),
        earned_points(sites) <= 4 * count_disposition(sites, Disposition::Eligible),
        missing_anchors(sites, candidates) <= sites.len(),
    decreases sites.len(),
{
    if sites.len() > 0 {
        lemma_counts_bounded(sites.drop_last(), candidates);
    }
}

proof fn lemma_newly_found_bounded(candidates: Seq<CandidateView>, sites: Seq<SiteView>)
    ensures
        newly_found(candidates, sites) <= candidates.len(),
    decreases candidates.len(),
{
    if candidates.len() > 0 {
        lemma_newly_found_bounded(candidates.drop_last(), sites);
    }
}

fn candidate_listed(candidates: &Vec<Candidate>, fingerprint: &str) -> (r: bool)
    ensures
        r == candidate_fingerprints(candidates.deep_view()).contains(fingerprint@),
{
    let ghost all = candidate_fingerprints(candidates.deep_view());
    let mut i: usize = 0;
    while i < candidates.len()
        invariant
            i <= candidates@.len(),
            all == candidate_fingerprints(candidates.deep_view()),
            all.len() == candidates@.len(),
            forall|j: int| 0 <= j < i ==> all[j] != fingerprint@,
        decreases candidates@.len() - i,
    {
        assert(all[i as int] == candidates@[i as int].fingerprint@);
        if text_equal(candidates[i].fingerprint.as_str(), fingerprint) {
            assert(all[i as int] == fingerprint@);
            return true;
        }
        i = i + 1;
    }
    false
}

/// Reports evidence coverage: validates the registry against the checks on disk of its
/// references, refuses a scan of another scope, and counts the sites by disposition, the
/// candidates that no site registers, the eligible sites whose incomplete evidence lost its
/// anchor, and the evidence points earned out of four per eligible site.
pub fn measure(scan: &ScanReport, registry: &Registry, checks: &Vec<ReferenceCheck>) -> (r: Result<
    MetricReport,
    MetricError,
>)
    requires
        checks@.len() == reference_list(registry@.sites).len(),
        registry@.sites.len() <= usize::MAX / 4,
    ensures
        match measure_error(scan@, registry@, checks@) {
            Some(error) => r matches Err(e) && e@ == error,
            None => r matches Ok(report) && report@ == evidence_report(scan@, registry@),
        },
{
    validate(registry, checks)?;
    if !same_includes(&registry.includes, &scan.includes) {
        return Err(MetricError::ScopeMismatch);
    }
    let ghost sites = registry@.sites;
    let ghost candidates = scan@.candidates;
    proof {
        lemma_counts_bounded(sites, candidates);
        lemma_newly_found_bounded(candidates, sites);
    }
    let mut eligible: usize = 0;
    let mut excluded: usize = 0;
    let mut unreviewed: usize = 0;
    let mut missing: usize = 0;
    let mut earned: usize = 0;
    let mut k: usize = 0;
    while k < registry.sites.len()
        invariant
            k <= registry.sites@.len(),
            sites == registry@.sites,
            candidates == scan@.candidates,
            sites.len() <= usize::MAX / 4,
            eligible == count_disposition(sites.take(k as int), Disposition::Eligible),
            excluded == count_disposition(sites.take(k as int), Disposition::Excluded),
            unreviewed == count_disposition(sites.take(k as int), Disposition::Unreviewed),
            missing == missing_anchors(sites.take(k as int), candidates),
            earned == earned_points(sites.take(k as int)),
        decreases registry.sites@.len() - k,
    {
        let site = &registry.sites[k];
        let ghost prefix = sites.take(k + 1);
        assert(prefix.drop_last() =~= sites.take(k as int));
        assert(prefix.last() == site@);
        proof {
            lemma_counts_bounded(prefix, candidates);
        }
        match site.disposition {
            Disposition::Eligible => {
                eligible = eligible + 1;
                let points = site.evidence.points();
                earned = earned + points;
                if points < 4 && !candidate_listed(&scan.candidates, site.fingerprint.as_str()) {
                    missing = missing + 1;
                }
            },
            Disposition::Excluded => {
                excluded = excluded + 1;
            },
            Disposition::Unreviewed => {
                unreviewed = unreviewed + 1;
            },
        }
        k = k + 1;
    }
    assert(sites.take(k as int) =~= sites);
    let mut fresh: usize = 0;
    let mut i: usize = 0;
    while i < scan.candidates.len()
        invariant
            i <= scan.candidates@.len(),
            sites == registry@.sites,
            candidates == scan.candidates.deep_view(),
            fresh == newly_found(candidates.take(i as int), sites),
            fresh <= i,
        decreases scan.candidates@.len() - i,
    {
        let ghost prefix = candidates.take(i + 1);
        assert(prefix.drop_last() =~= candidates.take(i as int));
        assert(prefix.last() == scan.candidates@[i as int]@);
        if !registered(&registry.sites, scan.candidates[i].fingerprint.as_str()) {
            fresh = fresh + 1;
        }
        i = i + 1;
    }
    assert(candidates.take(i as int) =~= candidates);
    let provisional = unreviewed > 0 || fresh > 0 || missing > 0 || scan.parse_issues.len() > 0;
    Ok(
        MetricReport {
            schema_version: SCHEMA_VERSION,
            root: scan.root.clone(),
            includes: crate::model::copy_strings(&scan.includes),
            scope_manifest_digest: crate::model::copy_text(&scan.scope_manifest_digest),
            scope_issues: crate::model::copy_scope_issues(&scan.scope_issues),
            scanned_candidates: scan.candidates.len(),
            registered_sites: registry.sites.len(),
            eligible,
            excluded,
            unreviewed,
            newly_found: fresh,
            missing_legacy_anchors: missing,
            parse_issues: crate::model::copy_parse_issues(&scan.parse_issues),
            earned_points: earned,
            possible_points: 4 * eligible,
            provisional,
        },
    )
}

/// Registering candidates never changes or drops an existing site: the old sites stay first,
/// in their order, and each added site is the unreviewed entry of a scanned candidate.
pub proof fn lemma_sync_keeps_existing_sites(sites: Seq<SiteView>, candidates: Seq<CandidateView>)
    ensures
        synced_sites(sites, candidates).len() >= sites.len(),
        synced_sites(sites, candidates).take(sites.len() as int) == sites,
        forall|i: int|
            sites.len() <= i < synced_sites(sites, candidates).len() ==> exists|j: int|
                0 <= j < candidates.len() && #[trigger] synced_sites(sites, candidates)[i]
                    == unreviewed_site(candidates[j]),
    decreases candidates.len(),
{
    if candidates.len() > 0 {
        let earlier = synced_sites(sites, candidates.drop_last());
        lemma_sync_keeps_existing_sites(sites, candidates.drop_last());
        let result = synced_sites(sites, candidates);
        if !fingerprints(earlier).contains(candidates.last().fingerprint) {
            assert(result.take(sites.len() as int) =~= earlier.take(sites.len() as int));
            assert forall|i: int| sites.len() <= i < result.len() implies exists|j: int|
                0 <= j < candidates.len() && #[trigger] result[i] == unreviewed_site(
                    candidates[j],
                ) by {
                if i < earlier.len() {
                    let j = choose|j: int|
                        0 <= j < candidates.drop_last().len() && #[trigger] earlier[i]
                            == unreviewed_site(candidates.drop_last()[j]);
                    assert(result[i] == unreviewed_site(candidates[j]));
                } else {
                    assert(result[i] == unreviewed_site(candidates[candidates.len() - 1]));
                }
            }
        } else {
            assert forall|i: int| sites.len() <= i < result.len() implies exists|j: int|
                0 <= j < candidates.len() && #[trigger] result[i] == unreviewed_site(
                    candidates[j],
                ) by {
                let j = choose|j: int|
                    0 <= j < candidates.drop_last().len() && #[trigger] earlier[i]
                        == unreviewed_site(candidates.drop_last()[j]);
                assert(result[i] == unreviewed_site(candidates[j]));
            }
        }
    } else {
        assert(sites.take(sites.len() as int) =~= sites);
    }
}

/// Each site that registering adds describes a scanned candidate: it carries that
/// candidate's fingerprint (also as its id), language, path and kind, awaits review, and has
/// no reason and no evidence yet.
pub proof fn lemma_sync_sites_describe_candidates(sites: Seq<SiteView>, candidates: Seq<CandidateView>)
    ensures
        forall|i: int|
            sites.len() <= i < synced_sites(sites, candidates).len() ==> exists|j: int|
                0 <= j < candidates.len() && {
                    let site = #[trigger] synced_sites(sites, candidates)[i];
                    let candidate = #[trigger] candidates[j];
                    &&& site.id == candidate.fingerprint
                    &&& site.fingerprint == candidate.fingerprint
                    &&& site.language == candidate.language
                    &&& site.path == candidate.path
                    &&& site.kind == candidate.kind
                    &&& site.disposition == Disposition::Unreviewed
                    &&& site.reason is None
                    &&& site.evidence.typed_context is None
                    &&& site.evidence.named_rules is None
                    &&& site.evidence.outcomes_tested is None
                    &&& site.evidence.trace_tested is None
                },
{
    lemma_sync_keeps_existing_sites(sites, candidates);
    let result = synced_sites(sites, candidates);
    assert forall|i: int| sites.len() <= i < result.len() implies exists|j: int|
        0 <= j < candidates.len() && {
            let site = #[trigger] result[i];
            let candidate = #[trigger] candidates[j];
            &&& site.id == candidate.fingerprint
            &&& site.fingerprint == candidate.fingerprint
            &&& site.language == candidate.language
            &&& site.path == candidate.path
            &&& site.kind == candidate.kind
            &&& site.disposition == Disposition::Unreviewed
            &&& site.reason is None
            &&& site.evidence.typed_context is None
            &&& site.evidence.named_rules is None
            &&& site.evidence.outcomes_tested is None
            &&& site.evidence.trace_tested is None
        } by {
        let j = choose|j: int|
            0 <= j < candidates.len() && #[trigger] result[i] == unreviewed_site(candidates[j]);
        assert(result[i] == unreviewed_site(candidates[j]));
    }
}

/// After registering a scan's candidates, each of their fingerprints has a site.
pub proof fn lemma_sync_registers_every_candidate(
    sites: Seq<SiteView>,
    candidates: Seq<CandidateView>,
)
    ensures
        forall|j: int|
            0 <= j < candidates.len() ==> fingerprints(synced_sites(sites, candidates)).contains(
                #[trigger] candidates[j].fingerprint,
            ),
    decreases candidates.len(),
{
    if candidates.len() > 0 {
        let earlier = synced_sites(sites, candidates.drop_last());
        let result = synced_sites(sites, candidates);
        lemma_sync_registers_every_candidate(sites, candidates.drop_last());
        lemma_sync_keeps_existing_sites(earlier, seq![candidates.last()]);
        assert forall|j: int| 0 <= j < candidates.len() implies fingerprints(result).contains(
            #[trigger] candidates[j].fingerprint,
        ) by {
            if j < candidates.len() - 1 {
                assert(candidates.drop_last()[j] == candidates[j]);
                let k = choose|k: int|
                    0 <= k < fingerprints(earlier).len() && fingerprints(earlier)[k]
                        == candidates[j].fingerprint;
                if !fingerprints(earlier).contains(candidates.last().fingerprint) {
                    assert(fingerprints(result)[k] == fingerprints(earlier)[k]);
                }
            } else if !fingerprints(earlier).contains(candidates.last().fingerprint) {
                assert(fingerprints(result)[earlier.len() as int] == candidates[j].fingerprint);
            }
        }
    }
}

/// Candidates whose fingerprints are all registered add nothing.
proof fn lemma_sync_of_registered(sites: Seq<SiteView>, candidates: Seq<CandidateView>)
    requires
        forall|j: int|
            0 <= j < candidates.len() ==> fingerprints(sites).contains(
                #[trigger] candidates[j].fingerprint,
            ),
    ensures
        synced_sites(sites, candidates) == sites,
    decreases candidates.len(),
{
    if candidates.len() > 0 {
        assert forall|j: int| 0 <= j < candidates.drop_last().len() implies fingerprints(
            sites,
        ).contains(#[trigger] candidates.drop_last()[j].fingerprint) by {
            assert(candidates.drop_last()[j] == candidates[j]);
        }
        lemma_sync_of_registered(sites, candidates.drop_last());
        assert(candidates.last() == candidates[candidates.len() - 1]);
    }
}

/// Registering the same scan twice adds nothing the second time.
pub proof fn lemma_sync_idempotent(sites: Seq<SiteView>, candidates: Seq<CandidateView>)
    ensures
        synced_sites(synced_sites(sites, candidates), candidates) == synced_sites(
            sites,
            candidates,
        ),
{
    lemma_sync_registers_every_candidate(sites, candidates);
    lemma_sync_of_registered(synced_sites(sites, candidates), candidates);
}

/// Registering candidates keeps the registry's fingerprints free of duplicates.
pub proof fn lemma_sync_keeps_fingerprints_distinct(
    sites: Seq<SiteView>,
    candidates: Seq<CandidateView>,
)
    requires
        fingerprints(sites).no_duplicates(),
    ensures
        fingerprints(synced_sites(sites, candidates)).no_duplicates(),
    decreases candidates.len(),
{
    if candidates.len() > 0 {
        let earlier = synced_sites(sites, candidates.drop_last());
        lemma_sync_keeps_fingerprints_distinct(sites, candidates.drop_last());
        if !fingerprints(earlier).contains(candidates.last().fingerprint) {
            let result = synced_sites(sites, candidates);
            assert(fingerprints(result) =~= fingerprints(earlier).push(
                candidates.last().fingerprint,
            ));
            assert forall|a: int, b: int|
                0 <= a < fingerprints(result).len() && 0 <= b < fingerprints(result).len() && a
                    != b implies fingerprints(result)[a] != fingerprints(result)[b] by {
                if a < earlier.len() && b < earlier.len() {
                } else if a < earlier.len() {
                    assert(fingerprints(earlier)[a] == fingerprints(result)[a]);
                } else if b < earlier.len() {
                    assert(fingerprints(earlier)[b] == fingerprints(result)[b]);
                }
            }
        }
    }
}

/// A scan whose fingerprints all have sites finds nothing new.
proof fn lemma_nothing_new(candidates: Seq<CandidateView>, sites: Seq<SiteView>)
    requires
        forall|j: int|
            0 <= j < candidates.len() ==> fingerprints(sites).contains(
                #[trigger] candidates[j].fingerprint,
            ),
    ensures
        newly_found(candidates, sites) == 0,
    decreases candidates.len(),
{
    if candidates.len() > 0 {
        assert forall|j: int| 0 <= j < candidates.drop_last().len() implies fingerprints(
            sites,
        ).contains(#[trigger] candidates.drop_last()[j].fingerprint) by {
            assert(candidates.drop_last()[j] == candidates[j]);
        }
        lemma_nothing_new(candidates.drop_last(), sites);
        assert(candidates.last() == candidates[candidates.len() - 1]);
    }
}

/// Measuring the scan that was just registered finds no new site.
pub proof fn lemma_sync_then_measure_finds_nothing_new(
    sites: Seq<SiteView>,
    candidates: Seq<CandidateView>,
)
    ensures
        newly_found(candidates, synced_sites(sites, candidates)) == 0,
{
    lemma_sync_registers_every_candidate(sites, candidates);
    lemma_nothing_new(candidates, synced_sites(sites, candidates));
}

/// Each site has exactly one disposition: eligible, excluded and unreviewed sites together are
/// all the registered sites.
pub proof fn lemma_dispositions_partition_sites(sites: Seq<SiteView>)
    ensures
        count_disposition(sites, Disposition::Eligible) + count_disposition(
            sites,
            Disposition::Excluded,
        ) + count_disposition(sites, Disposition::Unreviewed) == sites.len(),
    decreases sites.len(),
{
    if sites.len() > 0 {
        lemma_dispositions_partition_sites(sites.drop_last());
    }
}

proof fn lemma_missing_within_eligible(sites: Seq<SiteView>, candidates: Seq<CandidateView>)
    ensures
        missing_anchors(sites, candidates) <= count_disposition(sites, Disposition::Eligible),
        (forall|i: int|
            0 <= i < sites.len() ==> (#[trigger] sites[i]).disposition != Disposition::Eligible)
            ==> missing_anchors(sites, candidates) == 0,
        (forall|i: int|
            0 <= i < sites.len() ==> exists|j: int|
                0 <= j < candidates.len() && (#[trigger] candidates[j]).fingerprint == (
                #[trigger] sites[i]).fingerprint) ==> missing_anchors(sites, candidates) == 0,
    decreases sites.len(),
{
    if sites.len() > 0 {
        let shorter = sites.drop_last();
        lemma_missing_within_eligible(shorter, candidates);
        let last = sites[sites.len() - 1];
        assert(sites.last() == last);
        if forall|i: int|
            0 <= i < sites.len() ==> (#[trigger] sites[i]).disposition != Disposition::Eligible {
            assert forall|i: int| 0 <= i < shorter.len() implies (
            #[trigger] shorter[i]).disposition != Disposition::Eligible by {
                assert(shorter[i] == sites[i]);
            }
        }
        if forall|i: int|
            0 <= i < sites.len() ==> exists|j: int|
                0 <= j < candidates.len() && (#[trigger] candidates[j]).fingerprint == (
                #[trigger] sites[i]).fingerprint {
            assert forall|i: int| 0 <= i < shorter.len() implies exists|j: int|
                0 <= j < candidates.len() && (#[trigger] candidates[j]).fingerprint == (
                #[trigger] shorter[i]).fingerprint by {
                assert(shorter[i] == sites[i]);
            }
            let j = choose|j: int|
                0 <= j < candidates.len() && (#[trigger] candidates[j]).fingerprint
                    == sites[sites.len() - 1].fingerprint;
            assert(candidate_fingerprints(candidates)[j] == last.fingerprint);
        }
    }
}

/// Only an eligible site can be a missing legacy anchor, and only when no current candidate
/// carries its fingerprint: the count never exceeds the eligible sites; a registry with no
/// eligible site, or one whose every fingerprint is still scanned, has none, and is then
/// provisional exactly for unreviewed sites, new candidates or parse issues.
pub proof fn lemma_missing_anchors_are_eligible(scan: ScanReportView, registry: RegistryView)
    requires
        registry.sites.len() <= usize::MAX,
        scan.candidates.len() <= usize::MAX,
    ensures
        evidence_report(scan, registry).missing_legacy_anchors <= evidence_report(
            scan,
            registry,
        ).eligible,
        ((forall|i: int|
            0 <= i < registry.sites.len() ==> (#[trigger] registry.sites[i]).disposition
                != Disposition::Eligible) || (forall|i: int|
            0 <= i < registry.sites.len() ==> exists|j: int|
                0 <= j < scan.candidates.len() && (#[trigger] scan.candidates[j]).fingerprint == (
                #[trigger] registry.sites[i]).fingerprint)) ==> {
            let report = evidence_report(scan, registry);
            &&& report.missing_legacy_anchors == 0
            &&& report.provisional == (report.unreviewed > 0 || report.newly_found > 0
                || report.parse_issues.len() > 0)
        },
{
    lemma_missing_within_eligible(registry.sites, scan.candidates);
    lemma_counts_bounded(registry.sites, scan.candidates);
    lemma_newly_found_bounded(scan.candidates, registry.sites);
}

/// Eligible sites earn at most four points each, so coverage never exceeds one hundred
/// percent.
pub proof fn lemma_earned_within_possible(sites: Seq<SiteView>)
    ensures
        earned_points(sites) <= 4 * count_disposition(sites, Disposition::Eligible),
{
    lemma_counts_bounded(sites, Seq::empty());
}

/// The coverage denominator depends on the registry alone: an eligible decision stays counted
/// after the syntax it was found in disappears from the scan.
pub proof fn lemma_denominator_survives_rescan(
    first: ScanReportView,
    second: ScanReportView,
    registry: RegistryView,
)
    ensures
        evidence_report(first, registry).possible_points == evidence_report(
            second,
            registry,
        ).possible_points,
        evidence_report(first, registry).eligible == evidence_report(second, registry).eligible,
        evidence_report(first, registry).earned_points == evidence_report(
            second,
            registry,
        ).earned_points,
{
}

// ------------------------------------------------------------------ the registry's scope

/// The registry's scope after `added` paths: unchanged when none are added, refused when a
/// registry of the whole root already has sites, else the old and new paths normalized
/// together.
pub open spec fn widened_scope(registry: RegistryView, added: Seq<Seq<char>>) -> Result<
    Seq<Seq<char>>,
    MetricErrorView,
> {
    if added.len() == 0 {
        Ok(registry.includes)
    } else if registry.includes.len() == 0 && registry.sites.len() > 0 {
        Err(MetricErrorView::CannotNarrow)
    } else {
        match includes_result(registry.includes + added) {
            Ok(scope) => Ok(scope),
            Err(selection) => Err(MetricErrorView::InvalidSelection { selection }),
        }
    }
}

/// Adds paths to the registry's scope, as `sync` does before it scans.
pub fn widen_scope(registry: &mut Registry, added: &Vec<String>) -> (r: Result<(), MetricError>)
    ensures
        match widened_scope(old(registry)@, added.deep_view()) {
            Ok(scope) => r is Ok && final(registry)@ == (RegistryView {
                includes: scope,
                ..old(registry)@
            }),
            Err(error) => r matches Err(e) && e@ == error && final(registry)@ == old(registry)@,
        },
{
    if added.len() == 0 {
        return Ok(());
    }
    if registry.includes.len() == 0 && registry.sites.len() > 0 {
        return Err(MetricError::CannotNarrow);
    }
    let mut all = crate::model::copy_strings(&registry.includes);
    let ghost start = all.deep_view();
    let mut i: usize = 0;
    while i < added.len()
        invariant
            i <= added@.len(),
            all.deep_view() =~= start + added.deep_view().take(i as int),
        decreases added@.len() - i,
    {
        let ghost before = all.deep_view();
        all.push(added[i].clone());
        assert(all.deep_view() =~= before.push(added.deep_view()[i as int]));
        assert(added.deep_view().take(i + 1) =~= added.deep_view().take(i as int).push(
            added.deep_view()[i as int],
        ));
        i = i + 1;
    }
    assert(added.deep_view().take(i as int) =~= added.deep_view());
    match normalize_includes(&all) {
        Ok(scope) => {
            registry.includes = scope;
            Ok(())
        },
        Err(ScanError::InvalidInclude(selection)) => Err(MetricError::InvalidSelection { selection }),
        Err(_) => Err(MetricError::CannotNarrow),
    }
}

/// The scope that a measurement scans: the paths given without a registry; with one, its own
/// scope, or the given paths when they normalize to exactly that scope.
pub open spec fn measured_scope(registry: Option<RegistryView>, given: Seq<Seq<char>>) -> Result<
    Seq<Seq<char>>,
    MetricErrorView,
> {
    match registry {
        None => Ok(given),
        Some(registry) => if given.len() == 0 {
            Ok(registry.includes)
        } else {
            match includes_result(given) {
                Err(selection) => Err(MetricErrorView::InvalidSelection { selection }),
                Ok(scope) => if scope != registry.includes {
                    Err(MetricErrorView::SelectionMismatch)
                } else {
                    Ok(scope)
                },
            }
        },
    }
}

/// Chooses the scope of a live measurement.
pub fn measurement_scope(registry: Option<&Registry>, given: &Vec<String>) -> (r: Result<
    Vec<String>,
    MetricError,
>)
    ensures
        match measured_scope(crate::live::optional_registry(registry), given.deep_view()) {
            Ok(scope) => r matches Ok(chosen) && chosen.deep_view() == scope,
            Err(error) => r matches Err(e) && e@ == error,
        },
{
    match registry {
        None => Ok(crate::model::copy_strings(given)),
        Some(current) => {
            if given.len() == 0 {
                return Ok(crate::model::copy_strings(&current.includes));
            }
            match normalize_includes(given) {
                Ok(scope) => {
                    if !same_includes(&scope, &current.includes) {
                        Err(MetricError::SelectionMismatch)
                    } else {
                        Ok(scope)
                    }
                },
                Err(ScanError::InvalidInclude(selection)) => Err(
                    MetricError::InvalidSelection { selection },
                ),
                Err(_) => Err(MetricError::SelectionMismatch),
            }
        },
    }
}

/// Widening only adds: every earlier and every added path, normalized, stays in the scope,
/// which is sorted and lists each path once.
pub proof fn lemma_widening_keeps_scope(registry: RegistryView, added: Seq<Seq<char>>)
    ensures
        widened_scope(registry, added) matches Ok(scope) ==> {
            &&& added.len() > 0 ==> crate::scan::is_strictly_increasing(scope)
            &&& forall|k: int|
                0 <= k < added.len() ==> scope.contains(
                    crate::scan::normalized_include(#[trigger] added[k]),
                )
            &&& added.len() > 0 ==> forall|k: int|
                0 <= k < registry.includes.len() ==> scope.contains(
                    crate::scan::normalized_include(#[trigger] registry.includes[k]),
                )
        },
{
    let all = registry.includes + added;
    crate::scan::lemma_includes_keep_every_path(all);
    crate::scan::lemma_includes_sorted_without_duplicates(all);
    if widened_scope(registry, added) is Ok && added.len() > 0 {
        assert forall|k: int| 0 <= k < added.len() implies widened_scope(
            registry,
            added,
        )->Ok_0.contains(crate::scan::normalized_include(#[trigger] added[k])) by {
            assert(all[registry.includes.len() + k] == added[k]);
        }
        assert forall|k: int| 0 <= k < registry.includes.len() implies widened_scope(
            registry,
            added,
        )->Ok_0.contains(crate::scan::normalized_include(#[trigger] registry.includes[k])) by {
            assert(all[k] == registry.includes[k]);
        }
    }
}

} // verus!
