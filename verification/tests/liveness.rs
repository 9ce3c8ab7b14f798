use specification_metrics::liveness::{classify, PythonSource};
use specification_metrics::model::{Language, SpecificationDefinition, SpecificationLivenessStatus};

fn declaration(path: &str, name: &str) -> SpecificationDefinition {
    SpecificationDefinition {
        language: Language::Python,
        path: path.to_owned(),
        name: name.to_owned(),
        kind: "declaration".to_owned(),
        line: 1,
        column: 1,
    }
}

fn source(path: &str, text: &str) -> PythonSource {
    PythonSource { path: path.to_owned(), source: text.to_owned() }
}

fn status_of(
    definition: SpecificationDefinition,
    sources: Vec<PythonSource>,
    closed_world: bool,
) -> (SpecificationLivenessStatus, String) {
    let results = classify(&vec![definition], &sources, closed_world, false);
    assert_eq!(results.len(), 1);
    (results[0].status, results[0].evidence.clone())
}

#[test]
fn factory_sites_remain_live_without_declaration_analysis() {
    let definitions = [Language::Python, Language::Swift, Language::Rust].map(|language| {
        SpecificationDefinition {
            language,
            path: "src/factory".to_owned(),
            name: "FirstMatchSpec".to_owned(),
            kind: "factory".to_owned(),
            line: 1,
            column: 1,
        }
    });

    let results = classify(&definitions.to_vec(), &Vec::new(), false, true);
    assert!(results.iter().all(|result| result.status == SpecificationLivenessStatus::Live));
}

#[test]
fn private_unused_declaration_in_closed_world_is_dead() {
    let rules = source("app/rules.py", "class _Ready(Specification):\n    pass\n");
    let (status, evidence) = status_of(declaration("app/rules.py", "_Ready"), vec![rules], true);
    assert_eq!(status, SpecificationLivenessStatus::Dead);
    assert_eq!(evidence, "private declaration has no resolved runtime use in the closed source set");
}

#[test]
fn unused_declaration_outside_closed_world_is_unknown() {
    let rules = source("app/rules.py", "class _Ready(Specification):\n    pass\n");
    let (status, evidence) = status_of(declaration("app/rules.py", "_Ready"), vec![rules], false);
    assert_eq!(status, SpecificationLivenessStatus::Unknown);
    assert_eq!(evidence, "the manifest does not declare a closed-world source boundary");
}

#[test]
fn cross_file_construction_is_live() {
    let rules = source("app/rules.py", "class _Ready(Specification):\n    pass\n");
    let consumer = source("app/consumer.py", "from app.rules import _Ready\nrule = _Ready()\n");
    let (status, evidence) =
        status_of(declaration("app/rules.py", "_Ready"), vec![rules, consumer], true);
    assert_eq!(status, SpecificationLivenessStatus::Live);
    assert_eq!(evidence, "resolved constructor or Specification consumer use");
}

#[test]
fn aliased_relative_import_passed_to_evaluator_is_live() {
    let rules = source("app/rules.py", "class _Ready(Specification):\n    pass\n");
    let consumer =
        source("app/consumer.py", "from .rules import _Ready as Rule\nresult = engine.evaluate(Rule)\n");
    let (status, _) = status_of(declaration("app/rules.py", "_Ready"), vec![rules, consumer], true);
    assert_eq!(status, SpecificationLivenessStatus::Live);
}

#[test]
fn bare_reference_is_unresolved() {
    let rules = source("app/rules.py", "class _Ready(Specification):\n    pass\nchosen = _Ready\n");
    let (status, evidence) = status_of(declaration("app/rules.py", "_Ready"), vec![rules], true);
    assert_eq!(status, SpecificationLivenessStatus::Unknown);
    assert_eq!(
        evidence,
        "an unresolved runtime reference or dynamic lookup may use this declaration"
    );
}

#[test]
fn type_annotation_is_not_a_runtime_use() {
    let rules = source(
        "app/rules.py",
        "class _Ready(Specification):\n    pass\ndef check(rule: _Ready) -> _Ready:\n    return rule\n",
    );
    let (status, _) = status_of(declaration("app/rules.py", "_Ready"), vec![rules], true);
    assert_eq!(status, SpecificationLivenessStatus::Dead);
}

#[test]
fn dynamic_lookup_keeps_declarations_unknown() {
    let rules = source("app/rules.py", "class _Ready(Specification):\n    pass\n");
    let loader = source("app/loader.py", "rule = getattr(module, name)\n");
    let (status, _) = status_of(declaration("app/rules.py", "_Ready"), vec![rules, loader], true);
    assert_eq!(status, SpecificationLivenessStatus::Unknown);
}

#[test]
fn public_or_exported_declaration_is_unknown() {
    let rules = source("app/rules.py", "class Ready(Specification):\n    pass\n");
    let (status, evidence) = status_of(declaration("app/rules.py", "Ready"), vec![rules], true);
    assert_eq!(status, SpecificationLivenessStatus::Unknown);
    assert_eq!(evidence, "the declaration is importable or exported outside its source module");
    let exported = source(
        "app/rules.py",
        "__all__ = [\"_Ready\"]\nclass _Ready(Specification):\n    pass\n",
    );
    let (status, _) = status_of(declaration("app/rules.py", "_Ready"), vec![exported], true);
    assert_eq!(status, SpecificationLivenessStatus::Unknown);
}

#[test]
fn parse_error_and_incomplete_scan_are_unknown() {
    let broken = source("app/rules.py", "class _Ready(Specification:\n    pass\n");
    let (status, evidence) = status_of(declaration("app/rules.py", "_Ready"), vec![broken], true);
    assert_eq!(status, SpecificationLivenessStatus::Unknown);
    assert_eq!(evidence, "the declaration's source has a parse error");
    let rules = source("app/rules.py", "class _Ready(Specification):\n    pass\n");
    let results = classify(&vec![declaration("app/rules.py", "_Ready")], &vec![rules], true, true);
    assert_eq!(results[0].status, SpecificationLivenessStatus::Unknown);
    assert_eq!(results[0].evidence, "source parse or role assignment is incomplete");
}

#[test]
fn other_languages_are_unknown() {
    let mut definition = declaration("src/rules.rs", "Ready");
    definition.language = Language::Rust;
    let results = classify(&vec![definition], &Vec::new(), true, false);
    assert_eq!(results[0].status, SpecificationLivenessStatus::Unknown);
    assert_eq!(results[0].evidence, "liveness analysis is not implemented for this language");
    assert_eq!(results[0].path, "src/rules.rs");
    assert_eq!(results[0].language, Language::Rust);
}

#[test]
fn ambiguous_symbol_is_unknown() {
    let rules = source("app/rules.py", "class _Ready(Specification):\n    pass\n");
    let mut second = declaration("app/rules.py", "_Ready");
    second.line = 5;
    let results =
        classify(&vec![declaration("app/rules.py", "_Ready"), second], &vec![rules], true, false);
    assert_eq!(results.len(), 2);
    assert_eq!(results[0].evidence, "the Python symbol is ambiguous within its module");
    assert_eq!(results[1].status, SpecificationLivenessStatus::Unknown);
}

#[test]
fn wildcard_import_makes_the_declaration_unknown() {
    let rules = source("app/rules.py", "class _Ready(Specification):\n    pass\n");
    let consumer = source("app/consumer.py", "from app.rules import *\n");
    let (status, _) = status_of(declaration("app/rules.py", "_Ready"), vec![rules, consumer], true);
    assert_eq!(status, SpecificationLivenessStatus::Unknown);
}
