use specification_metrics::scope::{
    normalize_path, ScopeDocument, ScopeError, ScopeManifest, SourceRole, SourceSet,
};

fn set(role: SourceRole, paths: &[&str], reason: Option<&str>) -> SourceSet {
    SourceSet {
        role,
        paths: paths.iter().map(|path| path.to_string()).collect(),
        reason: reason.map(|text| text.to_owned()),
    }
}

fn parse(sets: Vec<SourceSet>) -> Result<ScopeManifest, ScopeError> {
    ScopeManifest::parse(&ScopeDocument { schema_version: 1, source_sets: sets, closed_world: false })
}

#[test]
fn most_specific_role_wins_and_manifest_digest_is_semantic() {
    let first = parse(vec![
        set(SourceRole::Application, &["."], None),
        set(SourceRole::Test, &["tests"], None),
    ])
    .unwrap();
    let reordered = parse(vec![
        set(SourceRole::Test, &["tests"], None),
        set(SourceRole::Application, &["."], None),
    ])
    .unwrap();
    assert_eq!(first.digest(), reordered.digest());
    let changed_role = parse(vec![
        set(SourceRole::Application, &["."], None),
        set(SourceRole::Generated, &["tests"], None),
    ])
    .unwrap();
    assert_ne!(first.digest(), changed_role.digest());
    assert_eq!(first.role_for("src/main.rs"), Ok(SourceRole::Application));
    assert_eq!(first.role_for("tests/test.py"), Ok(SourceRole::Test));
}

#[test]
fn windows_trailing_separator_preserves_directory_role() {
    let manifest = parse(vec![
        set(SourceRole::Application, &["."], None),
        set(SourceRole::Test, &["tests\\\\"], None),
    ])
    .unwrap();
    let canonical = parse(vec![
        set(SourceRole::Application, &["."], None),
        set(SourceRole::Test, &["tests"], None),
    ])
    .unwrap();
    assert_eq!(manifest.role_for("tests/nested.py"), Ok(SourceRole::Test));
    assert_eq!(manifest.digest(), canonical.digest());
}

#[test]
fn missing_and_conflicting_roles_are_reported() {
    let missing = parse(vec![set(SourceRole::Application, &["src"], None)]).unwrap();
    assert!(missing.role_for("other.py").is_err());
    let conflict = parse(vec![
        set(SourceRole::Application, &["src"], None),
        set(SourceRole::Test, &["src"], None),
    ])
    .unwrap();
    assert!(conflict.role_for("src/main.py").is_err());
    assert!(parse(vec![set(SourceRole::Application, &["src//bad"], None)]).is_err());
}

#[test]
fn explicit_file_and_directory_exclusions_require_a_reason() {
    let manifest = parse(vec![
        set(SourceRole::Application, &["."], None),
        set(SourceRole::Excluded, &["app/legacy.py", "old"], Some("Outside current adoption scope")),
    ])
    .unwrap();
    assert_eq!(manifest.role_for("app/legacy.py"), Ok(SourceRole::Excluded));
    assert_eq!(manifest.role_for("old/nested/rule.rs"), Ok(SourceRole::Excluded));
    assert_eq!(manifest.role_for("app/current.py"), Ok(SourceRole::Application));
    let changed_reason = parse(vec![
        set(SourceRole::Application, &["."], None),
        set(SourceRole::Excluded, &["app/legacy.py", "old"], Some("Reviewed later")),
    ])
    .unwrap();
    assert_ne!(manifest.digest(), changed_reason.digest());
    assert!(parse(vec![
        set(SourceRole::Application, &["."], None),
        set(SourceRole::Excluded, &["old"], None),
    ])
    .is_err());
}

#[test]
fn role_errors_carry_their_messages() {
    let missing = parse(vec![set(SourceRole::Application, &["src"], None)]).unwrap();
    assert_eq!(
        missing.role_for("other.py"),
        Err("source file has no role in scope manifest".to_owned())
    );
    let conflict = parse(vec![
        set(SourceRole::Application, &["src"], None),
        set(SourceRole::Test, &["src"], None),
    ])
    .unwrap();
    assert_eq!(
        conflict.role_for("src/main.py"),
        Err("conflicting source roles at the same path".to_owned())
    );
    assert_eq!(missing.role_for("src"), Ok(SourceRole::Application));
    assert_eq!(missing.role_for("srcs/main.py").is_err(), true);
}

#[test]
fn a_tie_at_a_shorter_path_does_not_hide_a_more_specific_role() {
    let manifest = parse(vec![
        set(SourceRole::Application, &["src"], None),
        set(SourceRole::Test, &["src"], None),
        set(SourceRole::Framework, &["src/vendor"], None),
    ])
    .unwrap();
    assert_eq!(manifest.role_for("src/vendor/x.py"), Ok(SourceRole::Framework));
    assert_eq!(
        manifest.role_for("src/main.py"),
        Err("conflicting source roles at the same path".to_owned())
    );
}

#[test]
fn each_manifest_error_is_reported() {
    let version = ScopeManifest::parse(&ScopeDocument {
        schema_version: 2,
        source_sets: vec![set(SourceRole::Application, &["."], None)],
        closed_world: false,
    });
    assert!(matches!(version, Err(ScopeError::UnsupportedSchemaVersion(2))));
    assert!(matches!(
        parse(vec![set(SourceRole::Application, &[], None)]),
        Err(ScopeError::EmptySourceSet)
    ));
    assert!(matches!(
        parse(vec![set(SourceRole::Application, &["."], Some("   "))]),
        Err(ScopeError::EmptyReason)
    ));
    assert!(matches!(
        parse(vec![
            set(SourceRole::Application, &["."], None),
            set(SourceRole::Excluded, &["old"], None)
        ]),
        Err(ScopeError::ExcludedWithoutReason)
    ));
    assert!(matches!(
        parse(vec![set(SourceRole::Test, &["tests"], None)]),
        Err(ScopeError::NoApplicationSet)
    ));
    assert!(matches!(
        parse(vec![
            set(SourceRole::Application, &["."], None),
            set(SourceRole::Excluded, &["old"], Some("first")),
            set(SourceRole::Excluded, &["old"], Some("second")),
        ]),
        Err(ScopeError::ConflictingReasons)
    ));
    assert!(matches!(
        parse(vec![set(SourceRole::Application, &["  "], None)]),
        Err(ScopeError::EmptyPath)
    ));
    assert!(matches!(
        parse(vec![set(SourceRole::Application, &["../up"], None)]),
        Err(ScopeError::NotRepositoryRelative(_))
    ));
}

#[test]
fn source_paths_are_normalized() {
    assert_eq!(normalize_path(" src\\app\\ ").unwrap(), "src/app");
    assert_eq!(normalize_path(".").unwrap(), ".");
    assert_eq!(normalize_path("./").unwrap(), ".");
    assert!(normalize_path("/abs").is_err());
    assert_eq!(normalize_path("a/./b").unwrap(), "a/./b");
    assert!(normalize_path("a//b").is_err());
}

#[test]
fn duplicate_entries_do_not_change_the_digest() {
    let once = parse(vec![
        set(SourceRole::Application, &["."], None),
        set(SourceRole::Test, &["tests"], None),
    ])
    .unwrap();
    let twice = parse(vec![
        set(SourceRole::Application, &[".", "."], None),
        set(SourceRole::Test, &["tests", "tests/"], None),
    ])
    .unwrap();
    assert_eq!(once.digest(), twice.digest());
    assert_eq!(once.digest().len(), 64);
}
