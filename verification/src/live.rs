//! The live `S / U` metric, recomputed from the current scan: `S` counts distinct
//! Specification definitions, `U` the decisions that are neither inside a Specification nor
//! excluded by review.
use vstd::prelude::*;

use crate::metric::{error_matches, fingerprints, is_blank, MetricError, MetricErrorView};
use crate::model::{
    copy_parse_issues, copy_scope_issues, copy_strings, copy_text, CandidateView,
    DefinitionView, Disposition, LiveMetricReport, LiveMetricReportView, LiveState, LivenessView,
    Registry, SpecificationLiveness, SpecificationLivenessStatus,
    RegistryView, ScanReport, ScanReportView, Site, SiteView, SpecificationDefinition,
    COUNTING_RULE_VERSION, SCHEMA_VERSION,
};
use crate::text::{append_decimal, append_str, decimal, equal_chars, text_equal, to_chars, trimmed};

verus! {

/// The first rule that `site` breaks for the live metric, given the sites before it.
pub open spec fn live_site_error(prior: Seq<SiteView>, site: SiteView) -> Option<MetricErrorView> {
    if fingerprints(prior).contains(site.fingerprint) {
        Some(MetricErrorView::DuplicateFingerprint { fingerprint: site.fingerprint })
    } else if site.disposition == Disposition::Excluded && match site.reason {
        Some(reason) => is_blank(reason),
        None => true,
    } {
        Some(MetricErrorView::ExcludedWithoutReason { id: site.id })
    } else {
        None
    }
}

pub open spec fn live_sites_error(sites: Seq<SiteView>) -> Option<MetricErrorView>
    decreases sites.len(),
{
    if sites.len() == 0 {
        None
    } else {
        match live_sites_error(sites.drop_last()) {
            Some(error) => Some(error),
            None => live_site_error(sites.drop_last(), sites.last()),
        }
    }
}

/// Why a registry cannot supply reviewed exclusions to the live metric, if it cannot.
pub open spec fn live_error(scan: ScanReportView, registry: Option<RegistryView>) -> Option<
    MetricErrorView,
> {
    match registry {
        None => None,
        Some(registry) => if registry.schema_version != SCHEMA_VERSION {
            Some(MetricErrorView::UnsupportedSchema { version: registry.schema_version })
        } else if registry.includes != scan.includes {
            Some(MetricErrorView::ScopeMismatch)
        } else {
            live_sites_error(registry.sites)
        },
    }
}

/// A reviewed exclusion: some excluded site carries the fingerprint.
pub open spec fn is_excluded(sites: Seq<SiteView>, fingerprint: Seq<char>) -> bool {
    exists|i: int|
        0 <= i < sites.len() && (#[trigger] sites[i]).disposition == Disposition::Excluded
            && sites[i].fingerprint == fingerprint
}

pub open spec fn excluded_sites(registry: Option<RegistryView>) -> Seq<SiteView> {
    match registry {
        Some(registry) => registry.sites,
        None => Seq::empty(),
    }
}

/// Candidates inside a recognized Specification definition.
pub open spec fn covered(candidates: Seq<CandidateView>) -> nat
    decreases candidates.len(),
{
    if candidates.len() == 0 {
        0
    } else {
        covered(candidates.drop_last()) + if candidates.last().inside_specification {
            1nat
        } else {
            0nat
        }
    }
}

/// Candidates outside every Specification whose fingerprint has a reviewed exclusion.
pub open spec fn reviewed(candidates: Seq<CandidateView>, sites: Seq<SiteView>) -> nat
    decreases candidates.len(),
{
    if candidates.len() == 0 {
        0
    } else {
        reviewed(candidates.drop_last(), sites) + if !candidates.last().inside_specification
            && is_excluded(sites, candidates.last().fingerprint) {
            1nat
        } else {
            0nat
        }
    }
}

/// The text that identifies a definition: language, path, kind, name, line and column.
pub open spec fn definition_key(definition: DefinitionView) -> Seq<char> {
    definition.language.label_text() + ":"@ + definition.path + ":"@ + definition.kind + ":"@
        + definition.name + ":"@ + decimal(definition.line as nat) + ":"@ + decimal(
        definition.column as nat,
    )
}

/// The number of distinct definition keys.
pub open spec fn distinct_definitions(definitions: Seq<DefinitionView>) -> nat
    decreases definitions.len(),
{
    if definitions.len() == 0 {
        0
    } else {
        distinct_definitions(definitions.drop_last()) + if definitions.drop_last().map_values(
            |d: DefinitionView| definition_key(d),
        ).contains(definition_key(definitions.last())) {
            0nat
        } else {
            1nat
        }
    }
}

/// Definition `i` is a declaration that liveness analysis proved dead.
pub open spec fn is_dead(liveness: Seq<LivenessView>, i: int) -> bool {
    0 <= i < liveness.len() && liveness[i].status == SpecificationLivenessStatus::Dead
}

/// The first `n` definitions without the dead ones: what `S` counts.
pub open spec fn counted_definitions(
    definitions: Seq<DefinitionView>,
    liveness: Seq<LivenessView>,
    n: int,
) -> Seq<DefinitionView>
    decreases n,
{
    if n <= 0 {
        Seq::empty()
    } else {
        counted_definitions(definitions, liveness, n - 1) + if is_dead(liveness, n - 1) {
            Seq::empty()
        } else {
            seq![definitions[n - 1]]
        }
    }
}

/// How many liveness results have `status`.
pub open spec fn status_count(liveness: Seq<LivenessView>, status: SpecificationLivenessStatus) -> nat
    decreases liveness.len(),
{
    if liveness.len() == 0 {
        0
    } else {
        status_count(liveness.drop_last(), status) + if liveness.last().status == status {
            1nat
        } else {
            0nat
        }
    }
}

/// `ratio` while decisions remain, `complete` when Specifications cover all of them, and
/// `not_applicable` when there is neither a decision nor a Specification.
pub open spec fn live_state(specifications: nat, remaining: nat) -> LiveState {
    if remaining > 0 {
        LiveState::Ratio
    } else if specifications > 0 {
        LiveState::Complete
    } else {
        LiveState::NotApplicable
    }
}

/// The live report of a scan, with the exclusions of an optional registry.
pub open spec fn live_report(
    scan: ScanReportView,
    registry: Option<RegistryView>,
    source_revision: Option<Seq<char>>,
) -> LiveMetricReportView {
    let sites = excluded_sites(registry);
    let covered_count = covered(scan.candidates);
    let reviewed_count = reviewed(scan.candidates, sites);
    let remaining = scan.candidates.len() - covered_count - reviewed_count;
    let specifications = distinct_definitions(
        counted_definitions(
            scan.specifications,
            scan.specification_liveness,
            scan.specifications.len() as int,
        ),
    );
    let unknown = status_count(scan.specification_liveness, SpecificationLivenessStatus::Unknown);
    LiveMetricReportView {
        schema_version: SCHEMA_VERSION,
        counting_rule_version: COUNTING_RULE_VERSION,
        root: scan.root,
        includes: scan.includes,
        scope_manifest_digest: scan.scope_manifest_digest,
        scope_issues: scan.scope_issues,
        scope_review_required: scan.scope_review_required,
        application_files: scan.application_files,
        excluded_files: scan.excluded_files,
        source_revision,
        source_digest: scan.source_digest,
        scanned_candidates: scan.candidates.len() as usize,
        covered_candidates: covered_count as usize,
        reviewed_exclusions: reviewed_count as usize,
        specification_definitions: specifications as usize,
        live_specifications: status_count(
            scan.specification_liveness,
            SpecificationLivenessStatus::Live,
        ) as usize,
        dead_specifications: status_count(
            scan.specification_liveness,
            SpecificationLivenessStatus::Dead,
        ) as usize,
        unknown_specifications: unknown as usize,
        remaining_opportunities: remaining as usize,
        state: live_state(specifications, remaining as nat),
        provisional: scan.parse_issues.len() > 0 || scan.scope_issues.len() > 0
            || scan.scope_review_required || unknown > 0,
        parse_issues: scan.parse_issues,
    }
}

pub open spec fn optional_registry(registry: Option<&Registry>) -> Option<RegistryView> {
    match registry {
        Some(registry) => Some(registry@),
        None => None,
    }
}

proof fn lemma_candidate_counts(candidates: Seq<CandidateView>, sites: Seq<SiteView>)
    ensures
        covered(candidates) + reviewed(candidates, sites) <= candidates.len(),
    decreases candidates.len(),
{
    if candidates.len() > 0 {
        lemma_candidate_counts(candidates.drop_last(), sites);
    }
}

proof fn lemma_distinct_bounded(definitions: Seq<DefinitionView>)
    ensures
        distinct_definitions(definitions) <= definitions.len(),
    decreases definitions.len(),
{
    if definitions.len() > 0 {
        lemma_distinct_bounded(definitions.drop_last());
    }
}

fn check_sites(sites: &Vec<Site>) -> (r: Option<MetricError>)
    ensures
        error_matches(r, live_sites_error(sites.deep_view())),
{
    let ghost all = sites.deep_view();
    let mut k: usize = 0;
    while k < sites.len()
        invariant
            k <= sites@.len(),
            all == sites.deep_view(),
            live_sites_error(all.take(k as int)) is None,
        decreases sites@.len() - k,
    {
        let site = &sites[k];
        let ghost prefix = all.take(k + 1);
        assert(prefix.drop_last() =~= all.take(k as int));
        assert(prefix.last() == site@);
        let duplicate = crate::metric::fingerprint_listed(sites, k, site.fingerprint.as_str());
        assert(sites.deep_view().take(k as int) == all.take(k as int));
        if duplicate {
            proof {
                lemma_live_error_prefix(all, k + 1);
            }
            return Some(MetricError::DuplicateFingerprint { fingerprint: site.fingerprint.clone() });
        }
        if site.disposition == Disposition::Excluded {
            let without_reason = match &site.reason {
                Some(reason) => {
                    let chars = to_chars(reason.as_str());
                    trimmed(chars.as_slice()).len() == 0
                },
                None => true,
            };
            if without_reason {
                proof {
                    lemma_live_error_prefix(all, k + 1);
                }
                return Some(MetricError::ExcludedWithoutReason { id: site.id.clone() });
            }
        }
        k = k + 1;
    }
    assert(all.take(k as int) =~= all);
    None
}

/// An error among the first `k` sites is the error of all of them.
proof fn lemma_live_error_prefix(sites: Seq<SiteView>, k: int)
    requires
        0 <= k <= sites.len(),
        live_sites_error(sites.take(k)) is Some,
    ensures
        live_sites_error(sites) == live_sites_error(sites.take(k)),
    decreases sites.len() - k,
{
    if k < sites.len() {
        assert(sites.take(k + 1).drop_last() =~= sites.take(k));
        lemma_live_error_prefix(sites, k + 1);
    } else {
        assert(sites.take(k) =~= sites);
    }
}

fn excluded_fingerprint(sites: &Vec<Site>, fingerprint: &str) -> (r: bool)
    ensures
        r == is_excluded(sites.deep_view(), fingerprint@),
{
    let ghost all = sites.deep_view();
    let mut i: usize = 0;
    while i < sites.len()
        invariant
            i <= sites@.len(),
            all == sites.deep_view(),
            forall|j: int|
                0 <= j < i ==> !((#[trigger] all[j]).disposition == Disposition::Excluded
                    && all[j].fingerprint == fingerprint@),
        decreases sites@.len() - i,
    {
        assert(all[i as int] == sites@[i as int]@);
        if sites[i].disposition == Disposition::Excluded && text_equal(
            sites[i].fingerprint.as_str(),
            fingerprint,
        ) {
            return true;
        }
        i = i + 1;
    }
    false
}

fn key_of(definition: &SpecificationDefinition) -> (r: Vec<char>)
    ensures
        r@ == definition_key(definition@),
{
    let mut key = to_chars(definition.language.label());
    append_str(&mut key, ":");
    append_str(&mut key, definition.path.as_str());
    append_str(&mut key, ":");
    append_str(&mut key, definition.kind.as_str());
    append_str(&mut key, ":");
    append_str(&mut key, definition.name.as_str());
    append_str(&mut key, ":");
    append_decimal(&mut key, definition.line);
    append_str(&mut key, ":");
    append_decimal(&mut key, definition.column);
    key
}

fn key_seen(keys: &Vec<Vec<char>>, key: &Vec<char>) -> (r: bool)
    ensures
        r == exists|m: int| 0 <= m < keys@.len() && (#[trigger] keys@[m])@ == key@,
{
    let mut j: usize = 0;
    while j < keys.len()
        invariant
            j <= keys@.len(),
            forall|m: int| 0 <= m < j ==> (#[trigger] keys@[m])@ != key@,
        decreases keys@.len() - j,
    {
        if equal_chars(keys[j].as_slice(), key.as_slice()) {
            return true;
        }
        j = j + 1;
    }
    false
}

fn count_distinct(definitions: &Vec<SpecificationDefinition>) -> (r: usize)
    ensures
        r == distinct_definitions(definitions.deep_view()),
{
    let ghost all = definitions.deep_view();
    let mut keys: Vec<Vec<char>> = Vec::new();
    let mut count: usize = 0;
    let mut i: usize = 0;
    while i < definitions.len()
        invariant
            i <= definitions@.len(),
            all == definitions.deep_view(),
            keys@.len() == i,
            forall|j: int| 0 <= j < i ==> (#[trigger] keys@[j])@ == definition_key(all[j]),
            count == distinct_definitions(all.take(i as int)),
            count <= i,
        decreases definitions@.len() - i,
    {
        let key = key_of(&definitions[i]);
        let ghost prefix = all.take(i + 1);
        let ghost earlier = prefix.drop_last().map_values(|d: DefinitionView| definition_key(d));
        assert(prefix.drop_last() =~= all.take(i as int));
        assert(prefix.last() == all[i as int]);
        let seen = key_seen(&keys, &key);
        assert(forall|m: int| 0 <= m < i ==> #[trigger] earlier[m] == keys@[m]@);
        if !seen {
            count = count + 1;
        }
        proof {
            if seen {
                let m = choose|m: int| 0 <= m < keys@.len() && keys@[m]@ == key@;
                assert(earlier[m] == key@);
            }
        }
        keys.push(key);
        i = i + 1;
    }
    assert(all.take(i as int) =~= all);
    count
}

fn count_status(liveness: &Vec<SpecificationLiveness>, status: SpecificationLivenessStatus) -> (r: usize)
    ensures
        r == status_count(liveness.deep_view(), status),
{
    let ghost all = liveness.deep_view();
    let mut count: usize = 0;
    let mut i: usize = 0;
    while i < liveness.len()
        invariant
            i <= liveness@.len(),
            all == liveness.deep_view(),
            count <= i,
            count == status_count(all.take(i as int), status),
        decreases liveness@.len() - i,
    {
        let ghost prefix = all.take(i + 1);
        assert(prefix.drop_last() =~= all.take(i as int));
        assert(prefix.last() == liveness@[i as int]@);
        if liveness[i].status == status {
            count = count + 1;
        }
        i = i + 1;
    }
    assert(all.take(i as int) =~= all);
    count
}

fn copy_definition(definition: &SpecificationDefinition) -> (r: SpecificationDefinition)
    ensures
        r@ == definition@,
{
    SpecificationDefinition {
        language: definition.language,
        path: definition.path.clone(),
        name: definition.name.clone(),
        kind: definition.kind.clone(),
        line: definition.line,
        column: definition.column,
    }
}

fn counted_copy(
    definitions: &Vec<SpecificationDefinition>,
    liveness: &Vec<SpecificationLiveness>,
) -> (r: Vec<SpecificationDefinition>)
    ensures
        r.deep_view() == counted_definitions(
            definitions.deep_view(),
            liveness.deep_view(),
            definitions@.len() as int,
        ),
{
    let mut kept: Vec<SpecificationDefinition> = Vec::new();
    let mut i: usize = 0;
    while i < definitions.len()
        invariant
            i <= definitions@.len(),
            kept.deep_view() == counted_definitions(
                definitions.deep_view(),
                liveness.deep_view(),
                i as int,
            ),
        decreases definitions@.len() - i,
    {
        let dead = i < liveness.len() && liveness[i].status == SpecificationLivenessStatus::Dead;
        assert(dead == is_dead(liveness.deep_view(), i as int));
        if !dead {
            let ghost before = kept.deep_view();
            kept.push(copy_definition(&definitions[i]));
            assert(kept.deep_view() =~= before + seq![definitions.deep_view()[i as int]]);
        } else {
            assert(kept.deep_view() =~= kept.deep_view() + Seq::<DefinitionView>::empty());
        }
        i = i + 1;
    }
    kept
}

/// Computes the live `S / U` report of a scan. A registry, when given, must have the current
/// schema version, the scan's scope, unique fingerprints and a reason for each exclusion; its
/// excluded sites remove their current candidates from `U`. `source_revision` is recorded as
/// given.
pub fn measure(
    scan: &ScanReport,
    registry: Option<&Registry>,
    source_revision: Option<String>,
) -> (r: Result<LiveMetricReport, MetricError>)
    ensures
        match live_error(scan@, optional_registry(registry)) {
            Some(error) => r matches Err(e) && e@ == error,
            None => r matches Ok(report) && report@ == live_report(
                scan@,
                optional_registry(registry),
                source_revision.deep_view(),
            ),
        },
{
    let ghost view = optional_registry(registry);
    if let Some(current) = registry {
        if current.schema_version != SCHEMA_VERSION {
            return Err(MetricError::UnsupportedSchema { version: current.schema_version });
        }
        if !crate::metric::same_includes(&current.includes, &scan.includes) {
            return Err(MetricError::ScopeMismatch);
        }
        match check_sites(&current.sites) {
            Some(error) => {
                return Err(error);
            },
            None => {},
        }
    }
    let ghost sites = excluded_sites(view);
    let ghost candidates = scan@.candidates;
    proof {
        lemma_candidate_counts(candidates, sites);
        lemma_distinct_bounded(scan@.specifications);
    }
    let mut covered_count: usize = 0;
    let mut reviewed_count: usize = 0;
    let mut i: usize = 0;
    while i < scan.candidates.len()
        invariant
            i <= scan.candidates@.len(),
            candidates == scan.candidates.deep_view(),
            view == optional_registry(registry),
            sites == excluded_sites(view),
            covered_count == covered(candidates.take(i as int)),
            reviewed_count == reviewed(candidates.take(i as int), sites),
            covered_count + reviewed_count <= i,
        decreases scan.candidates@.len() - i,
    {
        let candidate = &scan.candidates[i];
        let ghost prefix = candidates.take(i + 1);
        assert(prefix.drop_last() =~= candidates.take(i as int));
        assert(prefix.last() == candidate@);
        if candidate.inside_specification {
            covered_count = covered_count + 1;
        } else {
            let excluded = match registry {
                Some(current) => excluded_fingerprint(&current.sites, candidate.fingerprint.as_str()),
                None => false,
            };
            if excluded {
                reviewed_count = reviewed_count + 1;
            }
        }
        i = i + 1;
    }
    assert(candidates.take(i as int) =~= candidates);
    let remaining = scan.candidates.len() - covered_count - reviewed_count;
    let counted = counted_copy(&scan.specifications, &scan.specification_liveness);
    let specifications = count_distinct(&counted);
    let live = count_status(&scan.specification_liveness, SpecificationLivenessStatus::Live);
    let dead = count_status(&scan.specification_liveness, SpecificationLivenessStatus::Dead);
    let unknown = count_status(&scan.specification_liveness, SpecificationLivenessStatus::Unknown);
    let state = if remaining > 0 {
        LiveState::Ratio
    } else if specifications > 0 {
        LiveState::Complete
    } else {
        LiveState::NotApplicable
    };
    let provisional = scan.parse_issues.len() > 0 || scan.scope_issues.len() > 0
        || scan.scope_review_required || unknown > 0;
    Ok(
        LiveMetricReport {
            schema_version: SCHEMA_VERSION,
            counting_rule_version: COUNTING_RULE_VERSION,
            root: scan.root.clone(),
            includes: copy_strings(&scan.includes),
            scope_manifest_digest: copy_text(&scan.scope_manifest_digest),
            scope_issues: copy_scope_issues(&scan.scope_issues),
            scope_review_required: scan.scope_review_required,
            application_files: scan.application_files,
            excluded_files: scan.excluded_files,
            source_revision,
            source_digest: scan.source_digest.clone(),
            scanned_candidates: scan.candidates.len(),
            covered_candidates: covered_count,
            reviewed_exclusions: reviewed_count,
            specification_definitions: specifications,
            live_specifications: live,
            dead_specifications: dead,
            unknown_specifications: unknown,
            remaining_opportunities: remaining,
            state,
            provisional,
            parse_issues: copy_parse_issues(&scan.parse_issues),
        },
    )
}

/// Candidates that are neither inside a Specification nor excluded by review.
pub open spec fn remaining(candidates: Seq<CandidateView>, sites: Seq<SiteView>) -> nat
    decreases candidates.len(),
{
    if candidates.len() == 0 {
        0
    } else {
        remaining(candidates.drop_last(), sites) + if !candidates.last().inside_specification
            && !is_excluded(sites, candidates.last().fingerprint) {
            1nat
        } else {
            0nat
        }
    }
}

proof fn lemma_partition_counts(candidates: Seq<CandidateView>, sites: Seq<SiteView>)
    ensures
        covered(candidates) + reviewed(candidates, sites) + remaining(candidates, sites)
            == candidates.len(),
    decreases candidates.len(),
{
    if candidates.len() > 0 {
        lemma_partition_counts(candidates.drop_last(), sites);
    }
}

/// Every scanned candidate is counted exactly once: inside a Specification, as a reviewed
/// exclusion, or as a remaining opportunity, and `U` is exactly the candidates that are
/// neither.
pub proof fn lemma_candidates_partition(
    scan: ScanReportView,
    registry: Option<RegistryView>,
    source_revision: Option<Seq<char>>,
)
    requires
        scan.candidates.len() <= usize::MAX,
    ensures
        ({
            let report = live_report(scan, registry, source_revision);
            &&& report.covered_candidates + report.reviewed_exclusions
                + report.remaining_opportunities == report.scanned_candidates
            &&& report.remaining_opportunities == remaining(
                scan.candidates,
                excluded_sites(registry),
            )
        }),
{
    lemma_partition_counts(scan.candidates, excluded_sites(registry));
}

/// The report's state follows its counts: a ratio while opportunities remain, complete when
/// Specifications cover every decision, and not applicable with neither.
pub proof fn lemma_state_follows_counts(
    scan: ScanReportView,
    registry: Option<RegistryView>,
    source_revision: Option<Seq<char>>,
)
    requires
        scan.candidates.len() <= usize::MAX,
        scan.specifications.len() <= usize::MAX,
    ensures
        ({
            let report = live_report(scan, registry, source_revision);
            &&& (report.state == LiveState::Ratio <==> report.remaining_opportunities > 0)
            &&& (report.state == LiveState::Complete <==> report.remaining_opportunities == 0
                && report.specification_definitions > 0)
            &&& (report.state == LiveState::NotApplicable <==> report.remaining_opportunities
                == 0 && report.specification_definitions == 0)
        }),
{
    lemma_candidate_counts(scan.candidates, excluded_sites(registry));
    let counted = counted_definitions(
        scan.specifications,
        scan.specification_liveness,
        scan.specifications.len() as int,
    );
    lemma_counted_bounded(
        scan.specifications,
        scan.specification_liveness,
        scan.specifications.len() as int,
    );
    lemma_distinct_bounded(counted);
}

proof fn lemma_counted_bounded(definitions: Seq<DefinitionView>, liveness: Seq<LivenessView>, n: int)
    requires
        0 <= n,
    ensures
        counted_definitions(definitions, liveness, n).len() <= n,
    decreases n,
{
    if n > 0 {
        lemma_counted_bounded(definitions, liveness, n - 1);
    }
}

/// An exclusion counts only while its fingerprint is among the current candidates: a registry
/// whose excluded fingerprints match no current candidate leaves `U` as it is without one.
pub proof fn lemma_stale_exclusions_do_not_count(
    scan: ScanReportView,
    registry: RegistryView,
    source_revision: Option<Seq<char>>,
)
    requires
        forall|j: int|
            0 <= j < scan.candidates.len() ==> !is_excluded(
                registry.sites,
                #[trigger] scan.candidates[j].fingerprint,
            ),
    ensures
        live_report(scan, Some(registry), source_revision).remaining_opportunities == live_report(
            scan,
            None,
            source_revision,
        ).remaining_opportunities,
        live_report(scan, Some(registry), source_revision).reviewed_exclusions == 0,
{
    lemma_no_reviewed(scan.candidates, registry.sites);
    lemma_no_reviewed(scan.candidates, Seq::empty());
}

proof fn lemma_no_reviewed(candidates: Seq<CandidateView>, sites: Seq<SiteView>)
    requires
        forall|j: int|
            0 <= j < candidates.len() ==> !is_excluded(sites, #[trigger] candidates[j].fingerprint),
    ensures
        reviewed(candidates, sites) == 0,
    decreases candidates.len(),
{
    if candidates.len() > 0 {
        assert forall|j: int| 0 <= j < candidates.drop_last().len() implies !is_excluded(
            sites,
            #[trigger] candidates.drop_last()[j].fingerprint,
        ) by {
            assert(candidates.drop_last()[j] == candidates[j]);
        }
        lemma_no_reviewed(candidates.drop_last(), sites);
        assert(candidates.last() == candidates[candidates.len() - 1]);
    }
}

/// Only a site whose disposition is `Excluded` removes its candidate from `U`: with a registry
/// that holds no excluded site, there is no reviewed exclusion and `U` is what it is without a
/// registry.
pub proof fn lemma_only_excluded_sites_exclude(
    scan: ScanReportView,
    registry: RegistryView,
    source_revision: Option<Seq<char>>,
)
    requires
        forall|i: int|
            0 <= i < registry.sites.len() ==> (#[trigger] registry.sites[i]).disposition
                != Disposition::Excluded,
    ensures
        live_report(scan, Some(registry), source_revision).reviewed_exclusions == 0,
        live_report(scan, Some(registry), source_revision).remaining_opportunities == live_report(
            scan,
            None,
            source_revision,
        ).remaining_opportunities,
        live_report(scan, Some(registry), source_revision).state == live_report(
            scan,
            None,
            source_revision,
        ).state,
{
    assert forall|j: int| 0 <= j < scan.candidates.len() implies !is_excluded(
        registry.sites,
        #[trigger] scan.candidates[j].fingerprint,
    ) by {
        if is_excluded(registry.sites, scan.candidates[j].fingerprint) {
            let i = choose|i: int|
                0 <= i < registry.sites.len() && (#[trigger] registry.sites[i]).disposition
                    == Disposition::Excluded && registry.sites[i].fingerprint
                    == scan.candidates[j].fingerprint;
            assert(registry.sites[i].disposition != Disposition::Excluded);
        }
    }
    lemma_no_reviewed(scan.candidates, registry.sites);
    lemma_no_reviewed(scan.candidates, Seq::empty());
}

proof fn lemma_all_reviewed(candidates: Seq<CandidateView>, sites: Seq<SiteView>)
    requires
        forall|j: int|
            0 <= j < candidates.len() ==> !(#[trigger] candidates[j]).inside_specification
                && exists|i: int|
                0 <= i < sites.len() && (#[trigger] sites[i]).disposition == Disposition::Excluded
                    && sites[i].fingerprint == candidates[j].fingerprint,
    ensures
        reviewed(candidates, sites) == candidates.len(),
        covered(candidates) == 0,
    decreases candidates.len(),
{
    if candidates.len() > 0 {
        let shorter = candidates.drop_last();
        assert forall|j: int| 0 <= j < shorter.len() implies !(#[trigger] shorter[j]).inside_specification
            && exists|i: int|
            0 <= i < sites.len() && (#[trigger] sites[i]).disposition == Disposition::Excluded
                && sites[i].fingerprint == shorter[j].fingerprint by {
            assert(shorter[j] == candidates[j]);
        }
        lemma_all_reviewed(shorter, sites);
        let last = candidates[candidates.len() - 1];
        assert(candidates.last() == last);
        let i = choose|i: int|
            0 <= i < sites.len() && (#[trigger] sites[i]).disposition == Disposition::Excluded
                && sites[i].fingerprint == last.fingerprint;
        assert(is_excluded(sites, last.fingerprint));
    }
}

/// A candidate outside every Specification whose fingerprint an `Excluded` site carries is a
/// reviewed exclusion: when that holds of every candidate, all are reviewed exclusions and
/// none remains in `U`.
pub proof fn lemma_excluded_sites_exclude(
    scan: ScanReportView,
    registry: RegistryView,
    source_revision: Option<Seq<char>>,
)
    requires
        scan.candidates.len() <= usize::MAX,
        forall|j: int|
            0 <= j < scan.candidates.len() ==> !(#[trigger] scan.candidates[j]).inside_specification
                && exists|i: int|
                0 <= i < registry.sites.len() && (#[trigger] registry.sites[i]).disposition
                    == Disposition::Excluded && registry.sites[i].fingerprint
                    == scan.candidates[j].fingerprint,
    ensures
        live_report(scan, Some(registry), source_revision).reviewed_exclusions
            == scan.candidates.len(),
        live_report(scan, Some(registry), source_revision).remaining_opportunities == 0,
{
    lemma_all_reviewed(scan.candidates, registry.sites);
}

/// A definition reported again at the same key does not add to `S`.
pub proof fn lemma_definition_counted_once(definitions: Seq<DefinitionView>, repeated: DefinitionView)
    requires
        exists|j: int|
            0 <= j < definitions.len() && definition_key(#[trigger] definitions[j])
                == definition_key(repeated),
    ensures
        distinct_definitions(definitions.push(repeated)) == distinct_definitions(definitions),
{
    let j = choose|j: int|
        0 <= j < definitions.len() && definition_key(#[trigger] definitions[j]) == definition_key(
            repeated,
        );
    let longer = definitions.push(repeated);
    assert(longer.drop_last() =~= definitions);
    let keys = definitions.map_values(|d: DefinitionView| definition_key(d));
    assert(keys[j] == definition_key(repeated));
}

proof fn lemma_counted_distinct(
    definitions: Seq<DefinitionView>,
    liveness: Seq<LivenessView>,
    n: int,
)
    requires
        0 <= n <= definitions.len(),
        n <= liveness.len(),
        forall|i: int, j: int|
            0 <= i < j < definitions.len() ==> definition_key(#[trigger] definitions[i])
                != definition_key(#[trigger] definitions[j]),
    ensures
        distinct_definitions(counted_definitions(definitions, liveness, n)) == status_count(
            liveness.take(n),
            SpecificationLivenessStatus::Live,
        ) + status_count(liveness.take(n), SpecificationLivenessStatus::Unknown),
        forall|k: int|
            0 <= k < counted_definitions(definitions, liveness, n).len() ==> exists|i: int|
                0 <= i < n && #[trigger] counted_definitions(definitions, liveness, n)[k]
                    == definitions[i],
    decreases n,
{
    if n > 0 {
        let earlier = counted_definitions(definitions, liveness, n - 1);
        lemma_counted_distinct(definitions, liveness, n - 1);
        let counted = counted_definitions(definitions, liveness, n);
        assert(liveness.take(n).drop_last() =~= liveness.take(n - 1));
        assert(liveness.take(n).last() == liveness[n - 1]);
        if !is_dead(liveness, n - 1) {
            assert(counted == earlier.push(definitions[n - 1]));
            assert(counted.drop_last() =~= earlier);
            let keys = earlier.map_values(|d: DefinitionView| definition_key(d));
            assert(!keys.contains(definition_key(definitions[n - 1]))) by {
                if keys.contains(definition_key(definitions[n - 1])) {
                    let k = choose|k: int| 0 <= k < keys.len() && keys[k] == definition_key(
                        definitions[n - 1],
                    );
                    let i = choose|i: int| 0 <= i < n - 1 && #[trigger] earlier[k] == definitions[i];
                    assert(definition_key(definitions[i]) != definition_key(definitions[n - 1]));
                }
            }
            assert forall|k: int| 0 <= k < counted.len() implies exists|i: int|
                0 <= i < n && #[trigger] counted[k] == definitions[i] by {
                if k < earlier.len() {
                    let i = choose|i: int| 0 <= i < n - 1 && #[trigger] earlier[k] == definitions[i];
                    assert(counted[k] == definitions[i]);
                } else {
                    assert(counted[k] == definitions[n - 1]);
                }
            }
        } else {
            assert(counted =~= earlier);
        }
    }
}

/// `S` counts the live and the unknown declarations: only a declaration proved dead leaves it,
/// when each definition has its own place and liveness result.
pub proof fn lemma_s_counts_live_and_unknown(scan: ScanReportView)
    requires
        scan.specification_liveness.len() == scan.specifications.len(),
        scan.specifications.len() <= usize::MAX,
        forall|i: int, j: int|
            0 <= i < j < scan.specifications.len() ==> definition_key(
                #[trigger] scan.specifications[i],
            ) != definition_key(#[trigger] scan.specifications[j]),
    ensures
        distinct_definitions(
            counted_definitions(
                scan.specifications,
                scan.specification_liveness,
                scan.specifications.len() as int,
            ),
        ) == status_count(scan.specification_liveness, SpecificationLivenessStatus::Live)
            + status_count(scan.specification_liveness, SpecificationLivenessStatus::Unknown),
{
    let n = scan.specifications.len() as int;
    lemma_counted_distinct(scan.specifications, scan.specification_liveness, n);
    assert(scan.specification_liveness.take(n) =~= scan.specification_liveness);
}

proof fn lemma_status_count_bounded(liveness: Seq<LivenessView>, status: SpecificationLivenessStatus)
    ensures
        status_count(liveness, status) <= liveness.len(),
    decreases liveness.len(),
{
    if liveness.len() > 0 {
        lemma_status_count_bounded(liveness.drop_last(), status);
    }
}

/// The report is provisional exactly when something could still change it: a parse issue, a
/// scope issue, an unrestricted scan of a whole directory, or a declaration of unknown
/// liveness.
pub proof fn lemma_provisional_when_uncertain(
    scan: ScanReportView,
    registry: Option<RegistryView>,
    source_revision: Option<Seq<char>>,
)
    requires
        scan.specification_liveness.len() <= usize::MAX,
    ensures
        live_report(scan, registry, source_revision).provisional <==> (scan.parse_issues.len() > 0
            || scan.scope_issues.len() > 0 || scan.scope_review_required || live_report(
            scan,
            registry,
            source_revision,
        ).unknown_specifications > 0),
{
    lemma_status_count_bounded(scan.specification_liveness, SpecificationLivenessStatus::Unknown);
}

} // verus!
