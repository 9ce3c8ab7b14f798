use specification_metrics::live::measure;
use specification_metrics::metric::MetricError;
use specification_metrics::model::{Disposition, LiveMetricReport, LiveState, Registry, ScanReport, Site};
use specification_metrics::model::{
    Language, SpecificationDefinition, SpecificationLiveness, SpecificationLivenessStatus,
};
use specification_metrics::scan::{scan, scan_with_scope, SourceFile};
use specification_metrics::scope::{ScopeDocument, ScopeManifest, SourceRole, SourceSet};

fn scan_source(path: &str, text: &str) -> ScanReport {
    let files = vec![SourceFile { path: path.to_owned(), contents: Ok(text.as_bytes().to_vec()) }];
    scan("/work/project".to_owned(), true, &Vec::new(), &Vec::new(), &files).unwrap()
}

fn ratio(report: &LiveMetricReport) -> Option<f64> {
    (report.remaining_opportunities > 0)
        .then_some(report.specification_definitions as f64 / report.remaining_opportunities as f64)
}

#[test]
fn ratio_is_recomputed_from_current_source() {
    let first = measure(&scan_source("policy.py", "if ready:\n    promote()\n"), None, None).unwrap();
    assert_eq!(first.specification_definitions, 0);
    assert_eq!(first.remaining_opportunities, 1);
    assert_eq!(ratio(&first), Some(0.0));

    let converted = measure(
        &scan_source(
            "policy.py",
            "class Ready(Specification):\n    def is_satisfied_by(self, value):\n        if value:\n            return True\n        return False\n",
        ),
        None,
        None,
    )
    .unwrap();
    assert_eq!(converted.specification_definitions, 1);
    assert_eq!(converted.covered_candidates, 1);
    assert_eq!(converted.remaining_opportunities, 0);
    assert_eq!(converted.state, LiveState::Complete);
    assert_eq!(ratio(&converted), None);

    let later = measure(
        &scan_source(
            "policy.py",
            "class Ready(Specification):\n    def is_satisfied_by(self, value):\n        if value:\n            return True\n        return False\nif other:\n    promote()\n",
        ),
        None,
        None,
    )
    .unwrap();
    assert_eq!(later.specification_definitions, 1);
    assert_eq!(later.remaining_opportunities, 1);
    assert_eq!(ratio(&later), Some(1.0));

    let above_one = measure(
        &scan_source(
            "policy.py",
            "class Ready(Specification):\n    pass\nclass Allowed(Specification):\n    pass\nif other:\n    promote()\n",
        ),
        None,
        None,
    )
    .unwrap();
    assert_eq!(above_one.specification_definitions, 2);
    assert_eq!(above_one.remaining_opportunities, 1);
    assert_eq!(ratio(&above_one), Some(2.0));
}

#[test]
fn no_specifications_and_no_candidates_is_not_applicable() {
    let report = measure(&scan_source("empty.py", "pass\n"), None, None).unwrap();
    assert_eq!(report.state, LiveState::NotApplicable);
    assert_eq!(ratio(&report), None);
}

#[test]
fn only_current_reviewed_exclusions_reduce_denominator() {
    let initial = scan_source("policy.py", "if first:\n    pass\nif second:\n    pass\n");
    let mut registry = Registry::default();
    let first = Site::unreviewed(&initial.candidates[0]);
    registry.sites.push(first);
    registry.sites[0].disposition = Disposition::Excluded;
    registry.sites[0].reason = Some("mechanical guard".to_owned());
    let measured = measure(&initial, Some(&registry), None).unwrap();
    assert_eq!(measured.remaining_opportunities, 1);
    assert_eq!(measured.reviewed_exclusions, 1);

    let rescanned = measure(
        &scan_source("policy.py", "if replacement:\n    pass\nif second:\n    pass\n"),
        Some(&registry),
        None,
    )
    .unwrap();
    assert_eq!(rescanned.remaining_opportunities, 2);
    assert_eq!(rescanned.reviewed_exclusions, 0);
}

#[test]
fn same_named_declarations_in_different_scopes_count_separately() {
    let scan = scan_source(
        "policy.py",
        "class A:\n    class Rule(Specification):\n        pass\nclass B:\n    class Rule(Specification):\n        pass\n",
    );
    assert!(scan.parse_issues.is_empty(), "{:?}", scan.parse_issues);
    assert_eq!(scan.specifications.len(), 2);
    let measured = measure(&scan, None, None).unwrap();
    assert_eq!(measured.specification_definitions, 2);
    assert_eq!(measured.state, LiveState::Complete);
}

#[test]
fn candidates_are_partitioned_and_report_carries_scan_context() {
    let scan = scan_source(
        "policy.py",
        "class Ready(Specification):\n    def check(self, x):\n        if x:\n            return True\nif a:\n    pass\nif b:\n    pass\n",
    );
    let mut registry = Registry::default();
    registry.sites.push(Site::unreviewed(&scan.candidates[1]));
    registry.sites[0].disposition = Disposition::Excluded;
    registry.sites[0].reason = Some("input check".to_owned());
    let report = measure(&scan, Some(&registry), Some("abc123".to_owned())).unwrap();
    assert_eq!(report.scanned_candidates, 3);
    assert_eq!(report.covered_candidates, 1);
    assert_eq!(report.reviewed_exclusions, 1);
    assert_eq!(report.remaining_opportunities, 1);
    assert_eq!(
        report.covered_candidates + report.reviewed_exclusions + report.remaining_opportunities,
        report.scanned_candidates
    );
    assert_eq!(report.state, LiveState::Ratio);
    assert_eq!(report.source_revision.as_deref(), Some("abc123"));
    assert_eq!(report.source_digest, scan.source_digest);
    assert_eq!(report.counting_rule_version, 3);
    assert_eq!(report.state.label(), "ratio");
    assert!(report.provisional);
    assert!(report.scope_review_required);
}

#[test]
fn registry_for_live_metric_must_match_and_be_reviewed() {
    let scan = scan_source("policy.py", "if a:\n    pass\n");
    let mut registry = Registry::default();
    registry.sites.push(Site::unreviewed(&scan.candidates[0]));
    registry.sites.push(Site::unreviewed(&scan.candidates[0]));
    assert!(matches!(
        measure(&scan, Some(&registry), None),
        Err(MetricError::DuplicateFingerprint { .. })
    ));
    registry.sites.pop();
    registry.sites[0].disposition = Disposition::Excluded;
    assert!(matches!(
        measure(&scan, Some(&registry), None),
        Err(MetricError::ExcludedWithoutReason { .. })
    ));
    registry.schema_version = 3;
    assert!(matches!(
        measure(&scan, Some(&registry), None),
        Err(MetricError::UnsupportedSchema { version: 3 })
    ));
    let mut scoped = Registry::default();
    scoped.includes.push("policy.py".to_owned());
    assert!(matches!(measure(&scan, Some(&scoped), None), Err(MetricError::ScopeMismatch)));
}

fn closed_scope() -> ScopeManifest {
    ScopeManifest::parse(&ScopeDocument {
        schema_version: 1,
        source_sets: vec![SourceSet {
            role: SourceRole::Application,
            paths: vec![".".to_owned()],
            reason: None,
        }],
        closed_world: true,
    })
    .unwrap()
}

fn scan_closed(files: Vec<(&str, &str)>) -> ScanReport {
    let files = files
        .into_iter()
        .map(|(path, text)| SourceFile { path: path.to_owned(), contents: Ok(text.as_bytes().to_vec()) })
        .collect();
    scan_with_scope(
        "/work/project".to_owned(),
        true,
        &Vec::new(),
        &Vec::new(),
        Some(&closed_scope()),
        &files,
    )
    .unwrap()
}

#[test]
fn dead_declaration_leaves_s_but_keeps_its_decisions_out_of_u() {
    let report = scan_closed(vec![(
        "app/rules.py",
        "class _Unused(Specification):\n    def check(self, x):\n        if x:\n            return True\nif business:\n    pass\n",
    )]);
    assert!(report.parse_issues.is_empty(), "{:?}", report.parse_issues);
    assert_eq!(report.specification_liveness.len(), 1);
    assert_eq!(report.specification_liveness[0].status, SpecificationLivenessStatus::Dead);
    let metric = measure(&report, None, None).unwrap();
    assert_eq!(metric.specification_definitions, 0);
    assert_eq!(metric.dead_specifications, 1);
    assert_eq!(metric.covered_candidates, 1);
    assert_eq!(metric.remaining_opportunities, 1);
    assert_eq!(ratio(&metric), Some(0.0));
    assert!(!metric.provisional);
}

#[test]
fn live_and_unknown_declarations_stay_in_s() {
    let live = scan_closed(vec![
        ("app/rules.py", "class _Ready(Specification):\n    pass\n"),
        ("app/use.py", "from app.rules import _Ready\nrule = _Ready()\nif rule:\n    pass\n"),
    ]);
    assert_eq!(live.specification_liveness[0].status, SpecificationLivenessStatus::Live);
    let metric = measure(&live, None, None).unwrap();
    assert_eq!(metric.specification_definitions, 1);
    assert_eq!(metric.live_specifications, 1);
    assert!(!metric.provisional);

    let public = scan_closed(vec![("app/rules.py", "class Ready(Specification):\n    pass\n")]);
    assert_eq!(public.specification_liveness[0].status, SpecificationLivenessStatus::Unknown);
    let metric = measure(&public, None, None).unwrap();
    assert_eq!(metric.specification_definitions, 1);
    assert_eq!(metric.unknown_specifications, 1);
    assert!(metric.provisional);
}

#[test]
fn a_definition_reported_twice_counts_once() {
    let mut scan = scan_source("policy.py", "if a:\n    pass\n");
    let definition = SpecificationDefinition {
        language: Language::Python,
        path: "policy.py".to_owned(),
        name: "Rule".to_owned(),
        kind: "declaration".to_owned(),
        line: 4,
        column: 1,
    };
    let unknown = SpecificationLiveness {
        language: Language::Python,
        path: "policy.py".to_owned(),
        name: "Rule".to_owned(),
        kind: "declaration".to_owned(),
        line: 4,
        column: 1,
        status: SpecificationLivenessStatus::Unknown,
        evidence: "reviewed by hand".to_owned(),
    };
    scan.specifications = vec![definition.clone(), definition];
    scan.specification_liveness = vec![unknown.clone(), unknown];
    let report = measure(&scan, None, None).unwrap();
    assert_eq!(report.specification_definitions, 1);
    assert_eq!(report.unknown_specifications, 2);
    assert_eq!(report.remaining_opportunities, 1);
    assert_eq!(ratio(&report), Some(1.0));
}
