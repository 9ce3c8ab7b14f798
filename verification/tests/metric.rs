use specification_metrics::metric::{
    evidence_references, measure, measurement_scope, reference_check, sync, widen_scope,
    MetricError, ReferenceCheck,
};
use specification_metrics::model::{Disposition, Evidence, ParseIssue, Registry, ScanReport};
use specification_metrics::scan::{scan, scan_with_scope, SourceFile};
use specification_metrics::scope::{ScopeDocument, ScopeManifest, SourceRole, SourceSet};

fn scan_source(path: &str, text: &str) -> ScanReport {
    let files = vec![SourceFile { path: path.to_owned(), contents: Ok(text.as_bytes().to_vec()) }];
    scan("/work/project".to_owned(), true, &Vec::new(), &Vec::new(), &files).unwrap()
}

fn checks_found(registry: &Registry) -> Vec<ReferenceCheck> {
    evidence_references(registry).iter().map(|_| ReferenceCheck::Found).collect()
}

fn coverage_percent(earned: usize, possible: usize) -> Option<f64> {
    (possible > 0).then_some(earned as f64 * 100.0 / possible as f64)
}

#[test]
fn denominator_survives_removal_of_original_if() {
    let initial = scan_source("policy.py", "if ready:\n    promote()\n");
    let mut registry = Registry::default();
    assert_eq!(sync(&initial, &mut registry, false).unwrap(), 1);
    assert_eq!(measure(&initial, &registry, &checks_found(&registry)).unwrap().eligible, 0);

    registry.sites[0].id = "promotion-readiness".to_owned();
    registry.sites[0].disposition = Disposition::Eligible;
    registry.sites[0].evidence = Evidence {
        typed_context: Some("policy.py#Context".to_owned()),
        named_rules: Some("policy.py#Rules".to_owned()),
        outcomes_tested: Some("policy.py#test_outcomes".to_owned()),
        trace_tested: Some("policy.py#test_trace".to_owned()),
    };

    let after = scan_source(
        "policy.py",
        "class Context: pass\nclass Rules: pass\ndef test_outcomes(): pass\ndef test_trace(): pass\n",
    );
    let report = measure(&after, &registry, &checks_found(&registry)).unwrap();
    assert_eq!(after.candidates.len(), 0);
    assert_eq!(report.eligible, 1);
    assert_eq!(report.earned_points, 4);
    assert_eq!(report.possible_points, 4);
    assert_eq!(coverage_percent(report.earned_points, report.possible_points), Some(100.0));
    assert!(!report.provisional);
}

#[test]
fn new_sites_make_measurement_provisional_until_reviewed() {
    let mut registry = Registry::default();
    sync(&scan_source("policy.py", "if a:\n    pass\n"), &mut registry, false).unwrap();
    registry.sites[0].disposition = Disposition::Excluded;
    registry.sites[0].reason = Some("mechanical input validation".to_owned());

    let scan = scan_source("policy.py", "if a:\n    pass\nif b:\n    pass\n");
    let report = measure(&scan, &registry, &checks_found(&registry)).unwrap();
    assert_eq!(report.newly_found, 1);
    assert!(report.provisional);
    assert_eq!(sync(&scan, &mut registry, false).unwrap(), 1);
    let synced = measure(&scan, &registry, &checks_found(&registry)).unwrap();
    assert_eq!(synced.newly_found, 0);
    assert_eq!(synced.unreviewed, 1);
}

#[test]
fn partial_scan_needs_explicit_sync_override() {
    let mut report = scan_source("policy.py", "if ready:\n    pass\n");
    report.parse_issues.push(ParseIssue {
        path: "other.swift".to_owned(),
        message: "syntax error".to_owned(),
    });
    let mut registry = Registry::default();
    assert!(sync(&report, &mut registry, false).is_err());
    assert_eq!(sync(&report, &mut registry, true).unwrap(), 1);
    assert!(measure(&report, &registry, &checks_found(&registry)).unwrap().provisional);
}

#[test]
fn syncing_the_same_scan_twice_adds_nothing() {
    let scan = scan_source("policy.py", "if a:\n    pass\nif b:\n    pass\n");
    let mut registry = Registry::default();
    assert_eq!(sync(&scan, &mut registry, false).unwrap(), 2);
    assert_eq!(sync(&scan, &mut registry, false).unwrap(), 0);
    assert_eq!(registry.sites.len(), 2);
    assert_eq!(registry.sites[0].id, scan.candidates[0].fingerprint);
    assert_eq!(registry.sites[0].disposition, Disposition::Unreviewed);
    let report = measure(&scan, &registry, &checks_found(&registry)).unwrap();
    assert_eq!(report.newly_found, 0);
    assert_eq!(report.unreviewed, 2);
    assert_eq!(report.eligible + report.excluded + report.unreviewed, report.registered_sites);
}

#[test]
fn sync_refuses_other_schema_and_scope() {
    let scan = scan_source("policy.py", "if a:\n    pass\n");
    let mut registry = Registry::default();
    registry.schema_version = 2;
    assert!(matches!(
        sync(&scan, &mut registry, false),
        Err(MetricError::UnsupportedSchema { version: 2 })
    ));
    let mut narrowed = Registry::default();
    narrowed.includes.push("policy.py".to_owned());
    assert!(matches!(sync(&scan, &mut narrowed, false), Err(MetricError::ScopeMismatch)));
    assert!(narrowed.sites.is_empty());
    let mut partial = scan.clone();
    partial.parse_issues.push(ParseIssue { path: "x.py".to_owned(), message: "bad".to_owned() });
    assert!(matches!(
        sync(&partial, &mut Registry::default(), false),
        Err(MetricError::PartialScan { issues: 1 })
    ));
}

#[test]
fn registry_rules_are_checked_in_order() {
    let scan = scan_source("policy.py", "if a:\n    pass\nif b:\n    pass\n");
    let mut registry = Registry::default();
    sync(&scan, &mut registry, false).unwrap();

    let mut blank_id = registry.clone();
    blank_id.sites[0].id = "  ".to_owned();
    assert!(matches!(measure(&scan, &blank_id, &Vec::new()), Err(MetricError::EmptySiteId)));

    let mut same_id = registry.clone();
    same_id.sites[1].id = same_id.sites[0].id.clone();
    assert!(matches!(
        measure(&scan, &same_id, &Vec::new()),
        Err(MetricError::DuplicateSiteId { .. })
    ));

    let mut same_fingerprint = registry.clone();
    same_fingerprint.sites[1].fingerprint = same_fingerprint.sites[0].fingerprint.clone();
    assert!(matches!(
        measure(&scan, &same_fingerprint, &Vec::new()),
        Err(MetricError::DuplicateFingerprint { .. })
    ));

    let mut no_reason = registry.clone();
    no_reason.sites[0].disposition = Disposition::Excluded;
    assert!(matches!(
        measure(&scan, &no_reason, &Vec::new()),
        Err(MetricError::ExcludedWithoutReason { .. })
    ));

    let mut excluded_points = no_reason.clone();
    excluded_points.sites[0].reason = Some("guard".to_owned());
    excluded_points.sites[0].evidence.named_rules = Some("rules.py".to_owned());
    assert!(matches!(
        measure(&scan, &excluded_points, &Vec::new()),
        Err(MetricError::ExcludedWithPoints { .. })
    ));

    let mut unreviewed_points = registry.clone();
    unreviewed_points.sites[0].evidence.trace_tested = Some("trace.py".to_owned());
    assert!(matches!(
        measure(&scan, &unreviewed_points, &Vec::new()),
        Err(MetricError::UnreviewedWithPoints { .. })
    ));

    let mut blank_reference = registry.clone();
    blank_reference.sites[0].disposition = Disposition::Eligible;
    blank_reference.sites[0].evidence.typed_context = Some(" ".to_owned());
    assert_eq!(evidence_references(&blank_reference).len(), 0);
    match measure(&scan, &blank_reference, &Vec::new()) {
        Err(MetricError::EmptyReference { criterion, .. }) => assert_eq!(criterion, "typed_context"),
        other => panic!("{other:?}"),
    }

    let mut scoped = registry.clone();
    scoped.includes.push("policy.py".to_owned());
    assert!(matches!(measure(&scan, &scoped, &Vec::new()), Err(MetricError::ScopeMismatch)));
}

#[test]
fn evidence_checks_report_what_the_disk_showed() {
    let scan = scan_source("policy.py", "if a:\n    pass\n");
    let mut registry = Registry::default();
    sync(&scan, &mut registry, false).unwrap();
    registry.sites[0].disposition = Disposition::Eligible;
    registry.sites[0].evidence.typed_context = Some("docs/context.md#Typed Context".to_owned());
    registry.sites[0].evidence.named_rules = Some("rules.py".to_owned());
    let references = evidence_references(&registry);
    assert_eq!(references.len(), 2);
    assert_eq!(references[0].criterion, "typed_context");
    assert_eq!(references[0].path, "docs/context.md");
    assert_eq!(references[0].marker, "Typed Context");
    assert_eq!(references[1].path, "rules.py");
    assert_eq!(references[1].marker, "");

    let report = measure(&scan, &registry, &vec![ReferenceCheck::Found, ReferenceCheck::Found]).unwrap();
    assert_eq!(report.earned_points, 2);
    assert_eq!(report.possible_points, 4);
    assert_eq!(coverage_percent(report.earned_points, report.possible_points), Some(50.0));

    match measure(&scan, &registry, &vec![ReferenceCheck::MarkerMissing, ReferenceCheck::Found]) {
        Err(MetricError::MarkerNotFound { reference, .. }) => {
            assert_eq!(reference, "docs/context.md#Typed Context")
        }
        other => panic!("{other:?}"),
    }
    match measure(&scan, &registry, &vec![ReferenceCheck::Found, ReferenceCheck::Missing]) {
        Err(MetricError::EvidenceMissing { path, criterion, .. }) => {
            assert_eq!(path, "rules.py");
            assert_eq!(criterion, "named_rules");
        }
        other => panic!("{other:?}"),
    }
    assert!(matches!(
        measure(&scan, &registry, &vec![ReferenceCheck::OutsideRoot, ReferenceCheck::Found]),
        Err(MetricError::EvidenceOutsideRoot { .. })
    ));
    assert!(matches!(
        measure(&scan, &registry, &vec![ReferenceCheck::NotFile, ReferenceCheck::Found]),
        Err(MetricError::EvidenceNotFile { .. })
    ));
    assert!(matches!(
        measure(&scan, &registry, &vec![ReferenceCheck::Unreadable, ReferenceCheck::Found]),
        Err(MetricError::EvidenceUnreadable { .. })
    ));
}

#[test]
fn incomplete_evidence_without_its_anchor_is_a_missing_legacy_anchor() {
    let initial = scan_source("policy.py", "if a:\n    pass\n");
    let mut registry = Registry::default();
    sync(&initial, &mut registry, false).unwrap();
    registry.sites[0].disposition = Disposition::Eligible;
    registry.sites[0].evidence.typed_context = Some("policy.py".to_owned());
    let removed = scan_source("policy.py", "pass\n");
    let report = measure(&removed, &registry, &checks_found(&registry)).unwrap();
    assert_eq!(report.missing_legacy_anchors, 1);
    assert!(report.provisional);
    let present = measure(&initial, &registry, &checks_found(&registry)).unwrap();
    assert_eq!(present.missing_legacy_anchors, 0);
    assert!(!present.provisional);
}

#[test]
fn scope_widens_but_never_narrows_a_whole_root_registry() {
    let mut registry = Registry::default();
    widen_scope(&mut registry, &vec!["b.py".to_owned(), "a/".to_owned()]).unwrap();
    assert_eq!(registry.includes, vec!["a".to_owned(), "b.py".to_owned()]);
    widen_scope(&mut registry, &vec!["c.py".to_owned(), "a".to_owned()]).unwrap();
    assert_eq!(registry.includes, vec!["a".to_owned(), "b.py".to_owned(), "c.py".to_owned()]);
    widen_scope(&mut registry, &Vec::new()).unwrap();
    assert_eq!(registry.includes.len(), 3);
    assert!(matches!(
        widen_scope(&mut registry, &vec!["../x.py".to_owned()]),
        Err(MetricError::InvalidSelection { .. })
    ));

    let whole = scan_source("policy.py", "if a:\n    pass\n");
    let mut whole_registry = Registry::default();
    sync(&whole, &mut whole_registry, false).unwrap();
    assert!(matches!(
        widen_scope(&mut whole_registry, &vec!["policy.py".to_owned()]),
        Err(MetricError::CannotNarrow)
    ));
    assert!(whole_registry.includes.is_empty());

    assert_eq!(measurement_scope(Some(&registry), &Vec::new()).unwrap(), registry.includes);
    assert_eq!(
        measurement_scope(Some(&registry), &vec!["c.py".to_owned(), "b.py".to_owned(), "a".to_owned()])
            .unwrap(),
        registry.includes
    );
    assert!(matches!(
        measurement_scope(Some(&registry), &vec!["a".to_owned()]),
        Err(MetricError::SelectionMismatch)
    ));
    assert_eq!(measurement_scope(None, &vec!["x.py".to_owned()]).unwrap(), vec!["x.py".to_owned()]);
}

#[test]
fn scope_issues_alone_leave_the_evidence_report_final() {
    let scope = ScopeManifest::parse(&ScopeDocument {
        schema_version: 1,
        source_sets: vec![SourceSet {
            role: SourceRole::Application,
            paths: vec!["app".to_owned()],
            reason: None,
        }],
        closed_world: false,
    })
    .unwrap();
    let files = vec![
        SourceFile { path: "app/main.py".to_owned(), contents: Ok(b"pass\n".to_vec()) },
        SourceFile { path: "other.py".to_owned(), contents: Ok(b"if unknown: pass\n".to_vec()) },
    ];
    let report =
        scan_with_scope("/r".to_owned(), true, &Vec::new(), &Vec::new(), Some(&scope), &files).unwrap();
    assert_eq!(report.scope_issues.len(), 1);
    let registry = Registry::default();
    let measured = measure(&report, &registry, &Vec::new()).unwrap();
    assert!(!measured.provisional);
}

#[test]
fn reference_checks_follow_what_the_disk_showed() {
    let root = "/work/project";
    assert_eq!(reference_check(root, None, false, "", None), ReferenceCheck::Missing);
    assert_eq!(reference_check(root, Some("/work/other/a.py"), true, "", None), ReferenceCheck::OutsideRoot);
    assert_eq!(reference_check(root, Some("/work/project/src"), false, "", None), ReferenceCheck::NotFile);
    assert_eq!(reference_check(root, Some("/work/project/a.py"), true, "", None), ReferenceCheck::Found);
    assert_eq!(
        reference_check(root, Some("/work/project/a.py"), true, "Rules", Some("class Rules: pass")),
        ReferenceCheck::Found
    );
    assert_eq!(
        reference_check(root, Some("/work/project/a.py"), true, "Rules", Some("pass")),
        ReferenceCheck::MarkerMissing
    );
    assert_eq!(reference_check(root, Some("/work/project/a.py"), true, "Rules", None), ReferenceCheck::Unreadable);
}
