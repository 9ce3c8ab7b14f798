use specification_metrics::model::{
    evidence_is_empty, Candidate, Disposition, Evidence, Language, LiveState, Registry, Site,
    SCHEMA_VERSION,
};

#[test]
fn languages_come_from_extensions() {
    assert_eq!(Language::from_extension("py"), Some(Language::Python));
    assert_eq!(Language::from_extension("swift"), Some(Language::Swift));
    assert_eq!(Language::from_extension("rs"), Some(Language::Rust));
    assert_eq!(Language::from_extension("txt"), None);
    assert_eq!(Language::from_extension("PY"), None);
    assert_eq!(Language::Python.label(), "python");
    assert_eq!(Language::Swift.label(), "swift");
    assert_eq!(Language::Rust.label(), "rust");
}

#[test]
fn evidence_earns_a_point_per_non_blank_reference() {
    let evidence = Evidence {
        typed_context: Some("a.py#Context".to_owned()),
        named_rules: Some("   ".to_owned()),
        outcomes_tested: None,
        trace_tested: Some("t.py".to_owned()),
    };
    assert_eq!(evidence.points(), 2);
    assert!(!evidence_is_empty(&evidence));
    let entries = evidence.entries();
    assert_eq!(entries[0], ("typed_context", Some("a.py#Context")));
    assert_eq!(entries[1], ("named_rules", Some("   ")));
    assert_eq!(entries[2], ("outcomes_tested", None));
    assert_eq!(entries[3], ("trace_tested", Some("t.py")));
    assert!(evidence_is_empty(&Evidence::new_empty()));
}

#[test]
fn unreviewed_site_takes_the_candidate_identity() {
    let candidate = Candidate {
        fingerprint: "python:a.py:if:0123456789abcdef:1".to_owned(),
        language: Language::Python,
        path: "a.py".to_owned(),
        kind: "if".to_owned(),
        line: 3,
        column: 1,
        excerpt: "if a:".to_owned(),
        inside_specification: false,
    };
    let site = Site::unreviewed(&candidate);
    assert_eq!(site.id, candidate.fingerprint);
    assert_eq!(site.fingerprint, candidate.fingerprint);
    assert_eq!(site.path, "a.py");
    assert_eq!(site.kind, "if");
    assert_eq!(site.disposition, Disposition::Unreviewed);
    assert!(site.reason.is_none());
    assert_eq!(site.evidence.points(), 0);
}

#[test]
fn default_registry_is_empty_current_schema() {
    let registry = Registry::default();
    assert_eq!(registry.schema_version, SCHEMA_VERSION);
    assert!(registry.includes.is_empty());
    assert!(registry.sites.is_empty());
    assert!(registry.scope_manifest_digest.is_none());
}

#[test]
fn live_states_have_labels() {
    assert_eq!(LiveState::Ratio.label(), "ratio");
    assert_eq!(LiveState::Complete.label(), "complete");
    assert_eq!(LiveState::NotApplicable.label(), "not_applicable");
}
