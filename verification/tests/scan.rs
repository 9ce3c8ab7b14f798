use specification_metrics::analysis::is_spec_base;
use specification_metrics::model::Language;
use specification_metrics::scan::{
    lies_within, normalize_includes, scan, scan_with_scope, IncludeTarget, ScanError, SourceFile,
};
use specification_metrics::scope::{ScopeDocument, ScopeManifest, SourceRole, SourceSet};

fn file(path: &str, text: &str) -> SourceFile {
    SourceFile { path: path.to_owned(), contents: Ok(text.as_bytes().to_vec()) }
}

fn bytes(path: &str, contents: &[u8]) -> SourceFile {
    SourceFile { path: path.to_owned(), contents: Ok(contents.to_vec()) }
}

fn whole_root(files: &Vec<SourceFile>) -> specification_metrics::model::ScanReport {
    scan("/work/project".to_owned(), true, &Vec::new(), &Vec::new(), files).unwrap()
}

fn set(role: SourceRole, paths: &[&str]) -> SourceSet {
    SourceSet { role, paths: paths.iter().map(|path| path.to_string()).collect(), reason: None }
}

fn manifest(sets: Vec<SourceSet>) -> ScopeManifest {
    ScopeManifest::parse(&ScopeDocument { schema_version: 1, source_sets: sets, closed_world: false }).unwrap()
}

#[test]
fn discovers_decisions_in_all_three_languages() {
    let files = vec![
        file(
            "example.py",
            "if a:\n    pass\nelif b:\n    pass\nx = 1 if c else 2\ny = [n for n in xs if n]\nmatch x:\n    case 1: pass\n",
        ),
        file(
            "example.rs",
            "fn f(x: i32) {\n    if x > 0 {} else if x == 0 {}\n    match x { 0 => {}, _ => {} };\n}\n",
        ),
        file(
            "example.swift",
            "func f(_ x: Int) {\n    if x > 0 { print(x) } else if x == 0 { print(0) }\n    guard x >= 0 else { return }\n    switch x { case 1: print(1); default: break }\n    defer { print(\"done\") }\n}\n",
        ),
    ];
    let report = whole_root(&files);
    assert!(report.parse_issues.is_empty(), "{:?}", report.parse_issues);
    let kinds: Vec<_> = report
        .candidates
        .iter()
        .map(|candidate| (candidate.path.as_str(), candidate.kind.as_str()))
        .collect();
    assert!(kinds.contains(&("example.py", "if")));
    assert!(kinds.contains(&("example.py", "conditional_expression")));
    assert!(kinds.contains(&("example.py", "comprehension_filter")));
    assert!(kinds.contains(&("example.py", "match")));
    assert!(kinds.contains(&("example.swift", "if")));
    assert!(kinds.contains(&("example.swift", "guard")));
    assert!(kinds.contains(&("example.swift", "switch")));
    assert!(kinds.contains(&("example.swift", "defer")));
    assert!(kinds.contains(&("example.rs", "if")));
    assert!(kinds.contains(&("example.rs", "match")));
    for path in ["example.py", "example.swift", "example.rs"] {
        assert_eq!(
            kinds
                .iter()
                .filter(|(candidate_path, kind)| *candidate_path == path && *kind == "if")
                .count(),
            1,
            "else-if chains count as one decision in {path}"
        );
    }
}

#[test]
fn fingerprint_survives_lines_inserted_before_decision() {
    let first = whole_root(&vec![file("example.py", "if flag:\n    act()\n")]);
    let second = whole_root(&vec![file("example.py", "\n\nif flag:\n    act()\n")]);
    assert_eq!(first.candidates[0].fingerprint, second.candidates[0].fingerprint);
    assert_eq!(first.candidates[0].line, 1);
    assert_eq!(second.candidates[0].line, 3);
}

#[test]
fn narrowing_and_expanding_scope_preserves_existing_fingerprints() {
    let files = vec![
        file("first.py", "if first:\n    pass\n"),
        file("second.py", "if second:\n    pass\n"),
    ];
    let first_target = IncludeTarget::File { path: "/work/project/first.py".to_owned(), walked: true };
    let second_target =
        IncludeTarget::File { path: "/work/project/second.py".to_owned(), walked: true };
    let first = scan(
        "/work/project".to_owned(),
        true,
        &vec!["first.py".to_owned()],
        &vec![first_target.clone()],
        &files,
    )
    .unwrap();
    let both = scan(
        "/work/project".to_owned(),
        true,
        &vec!["first.py".to_owned(), "second.py".to_owned()],
        &vec![first_target, second_target],
        &files,
    )
    .unwrap();
    assert_eq!(first.candidates.len(), 1);
    assert_eq!(both.candidates.len(), 2);
    assert_eq!(first.candidates[0].fingerprint, both.candidates[0].fingerprint);
}

#[test]
fn invalid_include_is_rejected() {
    let files = vec![file("first.py", "if first:\n    pass\n")];
    let outside = scan(
        "/work/project".to_owned(),
        true,
        &vec!["../outside.py".to_owned()],
        &Vec::new(),
        &files,
    );
    assert!(outside.is_err());
    let notes = scan(
        "/work/project".to_owned(),
        true,
        &vec!["notes.txt".to_owned()],
        &vec![IncludeTarget::File { path: "/work/project/notes.txt".to_owned(), walked: false }],
        &files,
    );
    assert!(notes.is_err());
    let empty = scan(
        "/work/project".to_owned(),
        true,
        &vec!["empty".to_owned()],
        &vec![IncludeTarget::Directory { has_sources: false }],
        &files,
    );
    assert!(empty.is_err());
}

#[test]
fn generic_argument_does_not_count_as_specification_conformance() {
    assert!(is_spec_base("specification_core.Specification[int]"));
    assert!(is_spec_base("specification_core::Specification<i32>"));
    assert!(!is_spec_base("Container<Specification>"));
    assert!(!is_spec_base("Generic[Specification]"));
}

#[test]
fn counts_specification_definitions_and_ignores_their_internal_branches() {
    let files = vec![
        file(
            "example.py",
            "from specification_core import Specification, PredicateSpec\nclass Ready(Specification[int]):\n    def is_satisfied_by(self, value):\n        if value > 0:\n            return True\n        return False\nrule = PredicateSpec(lambda value: value > 0)\nif other:\n    pass\n",
        ),
        file(
            "example.rs",
            "struct Ready;\nimpl Specification<i32> for Ready {\n    fn is_satisfied_by(&self, value: &i32) -> bool {\n        if *value > 0 { true } else { false }\n    }\n}\nfn run(other: bool) {\n    let rule = FirstMatch::<i32, bool>::new();\n    if other {}\n}\n",
        ),
        file(
            "example.swift",
            "struct Ready: Specification {\n    func isSatisfiedBy(_ value: Int) -> Bool {\n        if value > 0 { return true }\n        return false\n    }\n}\nlet rule = PredicateSpec<Int> { $0 > 0 }\nif other { print(other) }\n",
        ),
    ];
    let report = whole_root(&files);
    assert!(report.parse_issues.is_empty(), "{:?}", report.parse_issues);
    let by_language = |language| {
        report.specifications.iter().filter(|spec| spec.language == language).count()
    };
    assert_eq!(by_language(Language::Python), 2);
    assert_eq!(by_language(Language::Swift), 2);
    assert_eq!(by_language(Language::Rust), 2);
    assert_eq!(
        report.candidates.iter().filter(|candidate| !candidate.inside_specification).count(),
        3
    );
}

#[test]
fn swift_extension_conformance_covers_its_decisions() {
    let report = whole_root(&vec![file(
        "example.swift",
        "struct Ready {}\nextension Ready: Specification {\n    func isSatisfiedBy(_ value: Int) -> Bool {\n        if value > 0 { return true }\n        return false\n    }\n}\nif unrelated { print(unrelated) }\n",
    )]);
    assert!(report.parse_issues.is_empty(), "{:?}", report.parse_issues);
    assert_eq!(report.specifications.len(), 1);
    assert_eq!(report.specifications[0].name, "Ready");
    assert_eq!(report.candidates.len(), 2);
    assert!(report.candidates[0].inside_specification);
    assert!(!report.candidates[1].inside_specification);
}

#[test]
fn invalid_utf8_bytes_change_source_digest() {
    let first = whole_root(&vec![bytes("invalid.py", &[0xff])]);
    let second = whole_root(&vec![bytes("invalid.py", &[0xfe])]);
    assert_eq!(first.parse_issues.len(), 1);
    assert_eq!(second.parse_issues.len(), 1);
    assert_ne!(first.source_digest, second.source_digest);
}

#[test]
fn whole_project_manifest_excludes_non_application_sources() {
    let scope = manifest(vec![
        set(SourceRole::Application, &["."]),
        set(SourceRole::Framework, &["vendor"]),
        set(SourceRole::Test, &["tests"]),
        set(SourceRole::Generated, &["generated"]),
    ]);
    let other = "class Other(Specification): pass\nif ignored: pass\n";
    let files = vec![
        file(
            "app/policy.py",
            "class Ready(Specification):\n    def accepts(self, x):\n        if x: return True\nif business: pass\n",
        ),
        file("generated/other.py", other),
        file("tests/other.py", other),
        file("vendor/other.py", other),
    ];
    let first =
        scan_with_scope("/work/project".to_owned(), true, &Vec::new(), &Vec::new(), Some(&scope), &files)
            .unwrap();
    assert!(first.scope_issues.is_empty());
    assert!(!first.scope_review_required);
    assert_eq!(first.application_files, 1);
    assert_eq!(first.excluded_files, 3);
    assert_eq!(first.specifications.len(), 1);
    assert_eq!(first.candidates.len(), 2);
    assert!(first.candidates[0].inside_specification);
    assert!(!first.candidates[1].inside_specification);

    let changed = vec![
        file(
            "app/policy.py",
            "class Ready(Specification):\n    def accepts(self, x):\n        if x: return True\nif business: pass\n",
        ),
        file("generated/other.py", other),
        file("tests/other.py", other),
        file("vendor/other.py", "if changed: pass\n"),
    ];
    let second =
        scan_with_scope("/work/project".to_owned(), true, &Vec::new(), &Vec::new(), Some(&scope), &changed)
            .unwrap();
    assert_eq!(first.source_digest, second.source_digest);
}

#[test]
fn unassigned_source_is_a_scope_issue() {
    let scope = manifest(vec![set(SourceRole::Application, &["app"])]);
    let files = vec![file("app/main.py", "if ready: pass\n"), file("other.py", "if unknown: pass\n")];
    let report =
        scan_with_scope("/work/project".to_owned(), true, &Vec::new(), &Vec::new(), Some(&scope), &files)
            .unwrap();
    assert_eq!(report.scope_issues.len(), 1);
    assert_eq!(report.scope_issues[0].path, "other.py");
    assert_eq!(report.candidates.len(), 1);
}

#[test]
fn includes_are_normalized_sorted_and_deduplicated() {
    let raw = vec![
        " src/b.py ".to_owned(),
        "src\\a.py".to_owned(),
        "src/b.py/".to_owned(),
        "lib".to_owned(),
    ];
    let normalized = normalize_includes(&raw).unwrap();
    assert_eq!(normalized, vec!["lib".to_owned(), "src/a.py".to_owned(), "src/b.py".to_owned()]);
}

#[test]
fn each_include_error_has_its_input() {
    for bad in ["", "/etc/passwd", "../up.py", "a/../b.py", "./here.py", "."] {
        match normalize_includes(&vec![bad.to_owned()]) {
            Err(ScanError::InvalidInclude(_)) => {}
            other => panic!("{bad:?} gave {other:?}"),
        }
    }
    let scope = manifest(vec![set(SourceRole::Application, &["."])]);
    match scan_with_scope(
        "/work/project".to_owned(),
        true,
        &vec!["a.py".to_owned()],
        &vec![IncludeTarget::File { path: "/work/project/a.py".to_owned(), walked: true }],
        Some(&scope),
        &Vec::new(),
    ) {
        Err(ScanError::IncludeWithManifest) => {}
        other => panic!("{other:?}"),
    }
    match scan(
        "/work/project".to_owned(),
        true,
        &vec!["a.py".to_owned()],
        &vec![IncludeTarget::File { path: "/work/project/a.py".to_owned(), walked: false }],
        &Vec::new(),
    ) {
        Err(ScanError::IgnoredInclude(selection)) => assert_eq!(selection, "a.py"),
        other => panic!("{other:?}"),
    }
    match scan(
        "/work/project".to_owned(),
        true,
        &vec!["notes.txt".to_owned()],
        &vec![IncludeTarget::File { path: "/work/project/notes.txt".to_owned(), walked: true }],
        &Vec::new(),
    ) {
        Err(ScanError::UnsupportedInclude(selection)) => assert_eq!(selection, "notes.txt"),
        other => panic!("{other:?}"),
    }
    match scan(
        "/work/project".to_owned(),
        true,
        &vec!["empty".to_owned()],
        &vec![IncludeTarget::Directory { has_sources: false }],
        &Vec::new(),
    ) {
        Err(ScanError::EmptyIncludeDirectory(selection)) => assert_eq!(selection, "empty"),
        other => panic!("{other:?}"),
    }
}

#[test]
fn unreadable_and_unparsable_sources_are_parse_issues() {
    let files = vec![
        file("broken.py", "if (:\n"),
        SourceFile { path: "gone.py".to_owned(), contents: Err("permission denied".to_owned()) },
    ];
    let report = whole_root(&files);
    assert_eq!(report.application_files, 2);
    assert_eq!(report.parse_issues.len(), 2);
    assert_eq!(report.parse_issues[0].path, "broken.py");
    assert_eq!(report.parse_issues[0].message, "syntax tree contains an ERROR or MISSING node");
    assert_eq!(report.parse_issues[1].path, "gone.py");
    assert_eq!(report.parse_issues[1].message, "cannot read source: permission denied");
    assert!(report.scope_review_required);
}

#[test]
fn fingerprint_has_language_path_kind_digest_and_occurrence() {
    let report = whole_root(&vec![file("twice.py", "if x:\n    pass\nif x:\n    pass\n")]);
    assert_eq!(report.candidates.len(), 2);
    let first = &report.candidates[0].fingerprint;
    let second = &report.candidates[1].fingerprint;
    assert!(first.starts_with("python:twice.py:if:"));
    assert!(first.ends_with(":1"));
    assert!(second.ends_with(":2"));
    assert_eq!(first[..first.len() - 2], second[..second.len() - 2]);
    assert_eq!(first.len(), "python:twice.py:if:".len() + 16 + 2);
    assert_eq!(report.source_digest.len(), 64);
    assert_eq!(report.candidates[0].excerpt, "if x:");
}

#[test]
fn manifest_without_application_files_is_a_scope_issue() {
    let scope = manifest(vec![set(SourceRole::Application, &["app"]), set(SourceRole::Test, &["tests"])]);
    let files = vec![file("tests/test_a.py", "if x: pass\n")];
    let report =
        scan_with_scope("/work/project".to_owned(), true, &Vec::new(), &Vec::new(), Some(&scope), &files)
            .unwrap();
    assert_eq!(report.application_files, 0);
    assert_eq!(report.excluded_files, 1);
    assert_eq!(report.scope_issues.len(), 1);
    assert_eq!(report.scope_issues[0].path, ".");
    assert_eq!(report.scope_issues[0].message, "scope manifest selected no application source files");
    assert_eq!(report.scope_manifest_digest.as_deref(), Some(scope.digest()));
}

#[test]
fn specification_markers_are_exact_names() {
    use_marker_checks();
}

fn use_marker_checks() {
    for name in [
        "Specification",
        "AsyncSpecification",
        "DecisionSpec",
        "AsyncDecisionSpec",
        "DecisionSpecification",
        "AutoContextSpecification",
    ] {
        assert!(specification_metrics::analysis::is_spec_marker(name), "{name}");
    }
    assert!(!specification_metrics::analysis::is_spec_marker("specification"));
    assert!(!specification_metrics::analysis::is_spec_marker("MySpecification"));
    assert!(is_spec_base("  core.DecisionSpec[int] "));
    assert!(!is_spec_base("DecisionSpecs"));
}

#[test]
fn normalizing_includes_twice_changes_nothing() {
    let raw = vec!["src/".to_owned(), "app/main.py".to_owned(), "src".to_owned(), "lib//".to_owned()];
    let once = normalize_includes(&raw).unwrap();
    assert_eq!(once, vec!["app/main.py".to_owned(), "lib".to_owned(), "src".to_owned()]);
    assert_eq!(normalize_includes(&once).unwrap(), once);
}

#[test]
fn positions_are_one_based() {
    let files = vec![file("example.py", "pass\n  if ready:\n    pass\n")];
    let report = whole_root(&files);
    assert_eq!(report.candidates.len(), 1);
    assert_eq!(report.candidates[0].line, 2);
    assert_eq!(report.candidates[0].column, 3);
}

#[test]
fn a_rewritten_vendor_file_leaves_the_report_unchanged() {
    let scope = manifest(vec![set(SourceRole::Application, &["."]), set(SourceRole::Framework, &["vendor"])]);
    let before = vec![file("app.py", "if a: pass\n"), file("vendor/lib.py", "if b: pass\n")];
    let after = vec![file("app.py", "if a: pass\n"), bytes("vendor/lib.py", &[0xff, 0xfe])];
    let first =
        scan_with_scope("/r".to_owned(), true, &Vec::new(), &Vec::new(), Some(&scope), &before).unwrap();
    let second =
        scan_with_scope("/r".to_owned(), true, &Vec::new(), &Vec::new(), Some(&scope), &after).unwrap();
    assert_eq!(first.source_digest, second.source_digest);
    assert_eq!(first.candidates.len(), second.candidates.len());
    assert_eq!(first.candidates[0].fingerprint, second.candidates[0].fingerprint);
    assert!(second.parse_issues.is_empty());
}

#[test]
fn fingerprints_of_several_files_stay_apart() {
    let files = vec![
        file("a.py", "if x:\n    pass\nif x:\n    pass\n"),
        file("b.py", "if x:\n    pass\n"),
    ];
    let report = whole_root(&files);
    assert_eq!(report.candidates.len(), 3);
    for (i, first) in report.candidates.iter().enumerate() {
        let parts: Vec<&str> = first.fingerprint.split(':').collect();
        assert_eq!(parts.len(), 5);
        assert_eq!(parts[0], "python");
        assert_eq!(parts[1], first.path);
        assert_eq!(parts[2], "if");
        assert_eq!(parts[3].len(), 16);
        assert!(parts[3].chars().all(|c| c.is_ascii_hexdigit() && !c.is_ascii_uppercase()));
        for second in report.candidates.iter().skip(i + 1) {
            assert_ne!(first.fingerprint, second.fingerprint);
        }
    }
    assert!(report.candidates[0].fingerprint.ends_with(":1"));
    assert!(report.candidates[1].fingerprint.ends_with(":2"));
    assert!(report.candidates[2].fingerprint.ends_with(":1"));
}

#[test]
fn a_path_lies_within_a_root_part_by_part() {
    assert!(lies_within("/work/project", "/work/project"));
    assert!(lies_within("/work/project", "/work/project/src/a.py"));
    assert!(!lies_within("/work/project", "/work/projects/a.py"));
    assert!(!lies_within("/work/project", "/work"));
    assert!(lies_within("/", "/work/a.py"));
}
