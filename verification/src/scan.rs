//! Scanning a source tree: which files count, what each contributes, and the report.
use vstd::prelude::*;

use crate::analysis::{analyze_file, numbered, tree_candidates, tree_definitions};
use crate::digest::{blake3_digest, blake3_hex};
use crate::model::{
    language_for_extension, Candidate, CandidateView, DefinitionView, IssueView, Language,
    SpecificationLivenessStatus,
    ParseIssue, ScanReport, ScanReportView, ScopeIssue, SpecificationDefinition, SCHEMA_VERSION,
};
use crate::order::{
    dedup_adjacent, dedup_items, insert_in_order, sort_in_order, sort_stable, Distinguished, Ordered,
};
use crate::scope::{
    has_current_component, has_parent_component, parent_component, role_result, ScopeEntryView,
    ScopeManifest, SourceRole,
};
use crate::liveness::{
    classify_parsed, lemma_liveness_rules, liveness_results, pieces_view, split_chars, split_on,
    ModuleView, ParsedModule,
};
use crate::syntax::{grammar_accepted, parse_outcome, parse_source, ParseOutcome};
use crate::fingerprint::{
    distinct_fingerprints, has_fingerprint_form, lemma_append_distinct, lemma_paths_part_fingerprints,
    lemma_sort_candidates,
};
use crate::text::{
    after_last, append_str, copy_range, equal_chars, is_text,
    last_position_of_any, lemma_rfind_any_bounds, replace_char, replaced, rfind_any, starts_with,
    starts_with_exec, string_from, suffix_after_last, text_equal, text_less, text_lt, text_lt_from,
    lemma_text_lt_irreflexive, lemma_text_lt_total, lemma_text_lt_asymmetric, lemma_text_lt_transitive,
    to_chars,
    trim, trim_end_char, trimmed, trimmed_end_char, is_ws, skip_ws, end_ws, end_without,
};
use vstd::utf8::{decode_utf8, encode_utf8, valid_utf8};

verus! {

// ---------------------------------------------------------------- orders of a report

/// Candidates are listed by path, line, column, then fingerprint.
pub open spec fn candidate_lt(a: CandidateView, b: CandidateView) -> bool {
    ||| text_lt(a.path, b.path)
    ||| a.path == b.path && a.line < b.line
    ||| a.path == b.path && a.line == b.line && a.column < b.column
    ||| a.path == b.path && a.line == b.line && a.column == b.column && text_lt(
        a.fingerprint,
        b.fingerprint,
    )
}

/// Definitions are listed by path, line, column, then name.
pub open spec fn definition_lt(a: DefinitionView, b: DefinitionView) -> bool {
    ||| text_lt(a.path, b.path)
    ||| a.path == b.path && a.line < b.line
    ||| a.path == b.path && a.line == b.line && a.column < b.column
    ||| a.path == b.path && a.line == b.line && a.column == b.column && text_lt(a.name, b.name)
}

impl Ordered for Candidate {
    open spec fn precedes(a: CandidateView, b: CandidateView) -> bool {
        candidate_lt(a, b)
    }

    fn comes_before(&self, other: &Self) -> (r: bool) {
        if text_less(self.path.as_str(), other.path.as_str()) {
            return true;
        }
        if !text_equal(self.path.as_str(), other.path.as_str()) {
            return false;
        }
        if self.line != other.line {
            return self.line < other.line;
        }
        if self.column != other.column {
            return self.column < other.column;
        }
        text_less(self.fingerprint.as_str(), other.fingerprint.as_str())
    }
}

impl Ordered for SpecificationDefinition {
    open spec fn precedes(a: DefinitionView, b: DefinitionView) -> bool {
        definition_lt(a, b)
    }

    fn comes_before(&self, other: &Self) -> (r: bool) {
        if text_less(self.path.as_str(), other.path.as_str()) {
            return true;
        }
        if !text_equal(self.path.as_str(), other.path.as_str()) {
            return false;
        }
        if self.line != other.line {
            return self.line < other.line;
        }
        if self.column != other.column {
            return self.column < other.column;
        }
        text_less(self.name.as_str(), other.name.as_str())
    }
}

impl Ordered for String {
    open spec fn precedes(a: Seq<char>, b: Seq<char>) -> bool {
        text_lt(a, b)
    }

    fn comes_before(&self, other: &Self) -> (r: bool) {
        text_less(self.as_str(), other.as_str())
    }
}

impl Distinguished for String {
    fn same_as(&self, other: &Self) -> (r: bool) {
        text_equal(self.as_str(), other.as_str())
    }
}

// ---------------------------------------------------------------- errors

#[derive(Clone, Debug)]
pub enum ScanError {
    /// A selected path is empty, absolute, or leaves the root.
    InvalidInclude(String),
    /// Includes were given together with a scope manifest.
    IncludeWithManifest,
    /// An included file does not have a supported extension.
    UnsupportedInclude(String),
    /// An included file is skipped by the file walker.
    IgnoredInclude(String),
    /// An included directory holds no selected source file.
    EmptyIncludeDirectory(String),
    /// The parser did not accept the grammar of a language.
    ParserUnavailable(Language),
}

pub enum ScanErrorView {
    InvalidInclude(Seq<char>),
    IncludeWithManifest,
    UnsupportedInclude(Seq<char>),
    IgnoredInclude(Seq<char>),
    EmptyIncludeDirectory(Seq<char>),
    ParserUnavailable(Language),
}

impl View for ScanError {
    type V = ScanErrorView;

    open spec fn view(&self) -> ScanErrorView {
        match self {
            ScanError::InvalidInclude(selection) => ScanErrorView::InvalidInclude(selection@),
            ScanError::IncludeWithManifest => ScanErrorView::IncludeWithManifest,
            ScanError::UnsupportedInclude(selection) => ScanErrorView::UnsupportedInclude(selection@),
            ScanError::IgnoredInclude(selection) => ScanErrorView::IgnoredInclude(selection@),
            ScanError::EmptyIncludeDirectory(selection) => ScanErrorView::EmptyIncludeDirectory(
                selection@,
            ),
            ScanError::ParserUnavailable(language) => ScanErrorView::ParserUnavailable(*language),
        }
    }
}

// ---------------------------------------------------------------- includes

/// Trimmed, trailing `/` removed, then `\` read as `/`.
pub open spec fn normalized_include(raw: Seq<char>) -> Seq<char> {
    replace_char(trim_end_char(trim(raw), '/'), '\\', '/')
}

/// Non-empty and relative, with no `..` component and no leading `.` component.
pub open spec fn is_acceptable_include(selection: Seq<char>) -> bool {
    &&& selection.len() > 0
    &&& !starts_with(selection, "/"@)
    &&& !has_parent_component(selection)
    &&& !has_current_component(selection)
}

pub open spec fn first_invalid_include(raw: Seq<Seq<char>>, i: int) -> Option<Seq<char>>
    decreases raw.len() - i,
{
    if i < 0 || i >= raw.len() {
        None
    } else if !is_acceptable_include(normalized_include(raw[i])) {
        Some(normalized_include(raw[i]))
    } else {
        first_invalid_include(raw, i + 1)
    }
}

/// The includes normalized, sorted and without duplicates, or the first unacceptable one.
pub open spec fn includes_result(raw: Seq<Seq<char>>) -> Result<Seq<Seq<char>>, Seq<char>> {
    match first_invalid_include(raw, 0) {
        Some(selection) => Err(selection),
        None => Ok(
            dedup_adjacent(
                sort_in_order::<String>(Seq::new(raw.len(), |i: int| normalized_include(raw[i]))),
            ),
        ),
    }
}

fn acceptable_include(selection: &[char]) -> (r: bool)
    ensures
        r == is_acceptable_include(selection@),
{
    let slash = to_chars("/");
    let dot = to_chars(".");
    let dot_slash = to_chars("./");
    selection.len() > 0 && !starts_with_exec(selection, slash.as_slice()) && !parent_component(selection)
        && !(equal_chars(selection, dot.as_slice()) || starts_with_exec(selection, dot_slash.as_slice()))
}

pub fn normalize_includes(includes: &Vec<String>) -> (r: Result<Vec<String>, ScanError>)
    ensures
        match (r, includes_result(includes.deep_view())) {
            (Ok(normalized), Ok(expected)) => normalized.deep_view() == expected,
            (Err(error), Err(expected)) => error@ == ScanErrorView::InvalidInclude(expected),
            _ => false,
        },
{
    let ghost raw = includes.deep_view();
    let mut normalized: Vec<String> = Vec::new();
    let mut i: usize = 0;
    while i < includes.len()
        invariant
            i <= raw.len(),
            raw == includes.deep_view(),
            first_invalid_include(raw, 0) == first_invalid_include(raw, i as int),
            normalized.deep_view() =~= Seq::new(i as nat, |k: int| normalized_include(raw[k])),
        decreases raw.len() - i,
    {
        assert(raw[i as int] == includes@[i as int]@);
        let chars = to_chars(includes[i].as_str());
        let inner = trimmed(chars.as_slice());
        let cut = trimmed_end_char(inner.as_slice(), '/');
        let selection = replaced(cut.as_slice(), '\\', '/');
        if !acceptable_include(selection.as_slice()) {
            return Err(ScanError::InvalidInclude(string_from(selection.as_slice())));
        }
        let ghost before = normalized.deep_view();
        let text = string_from(selection.as_slice());
        normalized.push(text);
        assert(normalized.deep_view() =~= before.push(normalized_include(raw[i as int])));
        i = i + 1;
    }
    let sorted = sort_stable(normalized);
    Ok(dedup_items(sorted))
}

/// `normalize_includes`, then refuses includes beside a manifest.
pub fn select_includes(includes: &Vec<String>, manifest_given: bool) -> (r: Result<
    Vec<String>,
    ScanError,
>)
    ensures
        match (r, includes_result(includes.deep_view())) {
            (Ok(normalized), Ok(expected)) => normalized.deep_view() == expected && (
            !manifest_given || expected.len() == 0),
            (Err(error), Ok(expected)) => manifest_given && expected.len() > 0 && error@
                == ScanErrorView::IncludeWithManifest,
            (Err(error), Err(expected)) => error@ == ScanErrorView::InvalidInclude(expected),
            _ => false,
        },
{
    let normalized = normalize_includes(includes)?;
    if manifest_given && normalized.len() > 0 {
        return Err(ScanError::IncludeWithManifest);
    }
    Ok(normalized)
}

// ---------------------------------------------------------------- paths

/// The extension of the last path component: the text after its last `.`, unless that `.`
/// opens the name.
pub open spec fn file_extension(path: Seq<char>) -> Option<Seq<char>> {
    let name = after_last(path, seq!['/']);
    let dot = rfind_any(name, seq!['.'], name.len() as int);
    if dot <= 0 {
        None
    } else {
        Some(name.skip(dot + 1))
    }
}

/// The language of a source path, by its extension.
pub open spec fn path_language(path: Seq<char>) -> Option<Language> {
    match file_extension(path) {
        Some(extension) => language_for_extension(extension),
        None => None,
    }
}

fn extension_of(path: &[char]) -> (r: Option<Vec<char>>)
    ensures
        crate::text::opt_chars(r) == file_extension(path@),
{
    let slash = ['/'];
    let dot = ['.'];
    assert(slash@ == seq!['/'] && dot@ == seq!['.']);
    let name = suffix_after_last(path, &slash);
    proof {
        lemma_rfind_any_bounds(name@, dot@, name@.len() as int);
    }
    match last_position_of_any(name.as_slice(), &dot) {
        Some(position) => if position == 0 {
            None
        } else {
            let extension = copy_range(name.as_slice(), position + 1, name.len());
            assert(extension@ == name@.skip(position + 1));
            Some(extension)
        },
        None => None,
    }
}

pub fn language_of(path: &str) -> (r: Option<Language>)
    ensures
        r == path_language(path@),
{
    let chars = to_chars(path);
    match extension_of(chars.as_slice()) {
        Some(extension) => {
            let text = string_from(extension.as_slice());
            Language::from_extension(text.as_str())
        },
        None => None,
    }
}

/// The `/`-separated parts of a path; a trailing `/` adds no part.
pub open spec fn path_parts(path: Seq<char>) -> Seq<Seq<char>> {
    let parts = split_on(path, '/');
    if parts.len() > 1 && parts.last().len() == 0 {
        parts.drop_last()
    } else {
        parts
    }
}

/// `path` is `base` or lies below it, part by part, as `Path::starts_with` decides.
pub open spec fn path_within(base: Seq<char>, path: Seq<char>) -> bool {
    let b = path_parts(base);
    let p = path_parts(path);
    b.len() <= p.len() && forall|i: int| 0 <= i < b.len() ==> #[trigger] b[i] == p[i]
}

fn parts_of(path: &str) -> (r: Vec<Vec<char>>)
    ensures
        pieces_view(r@) == path_parts(path@),
{
    let chars = to_chars(path);
    let mut parts = split_chars(chars.as_slice(), '/');
    if parts.len() > 1 && parts[parts.len() - 1].len() == 0 {
        let ghost before = pieces_view(parts@);
        parts.pop();
        assert(pieces_view(parts@) =~= before.drop_last());
    }
    parts
}

/// Whether `path` is `base` or lies below it.
pub fn lies_within(base: &str, path: &str) -> (r: bool)
    ensures
        r == path_within(base@, path@),
{
    let b = parts_of(base);
    let p = parts_of(path);
    if b.len() > p.len() {
        return false;
    }
    let mut i: usize = 0;
    while i < b.len()
        invariant
            i <= b@.len() <= p@.len(),
            pieces_view(b@) == path_parts(base@),
            pieces_view(p@) == path_parts(path@),
            forall|k: int| 0 <= k < i ==> #[trigger] pieces_view(b@)[k] == pieces_view(p@)[k],
        decreases b@.len() - i,
    {
        assert(pieces_view(b@)[i as int] == b@[i as int]@);
        assert(pieces_view(p@)[i as int] == p@[i as int]@);
        if !equal_chars(b[i].as_slice(), p[i].as_slice()) {
            return false;
        }
        i = i + 1;
    }
    true
}

/// Whether a path names a Python, Swift, or Rust source.
pub fn supported(path: &str) -> (r: bool)
    ensures
        r == (path_language(path@) is Some),
{
    language_of(path).is_some()
}

/// What the file system shows of a selected path, once it resolves inside the root.
#[derive(Clone, Debug)]
pub enum IncludeTarget {
    /// A file at the canonical path `path`; `walked` tells whether the walker selected it.
    File { path: String, walked: bool },
    /// A directory; `has_sources` tells whether the walker selected a file below it.
    Directory { has_sources: bool },
}

pub enum IncludeTargetView {
    File { path: Seq<char>, walked: bool },
    Directory { has_sources: bool },
}

impl View for IncludeTarget {
    type V = IncludeTargetView;

    open spec fn view(&self) -> IncludeTargetView {
        match self {
            IncludeTarget::File { path, walked } => IncludeTargetView::File {
                path: path@,
                walked: *walked,
            },
            IncludeTarget::Directory { has_sources } => IncludeTargetView::Directory {
                has_sources: *has_sources,
            },
        }
    }
}

impl DeepView for IncludeTarget {
    type V = IncludeTargetView;

    open spec fn deep_view(&self) -> IncludeTargetView {
        self@
    }
}

pub open spec fn include_target_error(selection: Seq<char>, target: IncludeTargetView) -> Option<
    ScanErrorView,
> {
    match target {
        IncludeTargetView::File { path, walked } => if path_language(path) is None {
            Some(ScanErrorView::UnsupportedInclude(selection))
        } else if !walked {
            Some(ScanErrorView::IgnoredInclude(selection))
        } else {
            None
        },
        IncludeTargetView::Directory { has_sources } => if !has_sources {
            Some(ScanErrorView::EmptyIncludeDirectory(selection))
        } else {
            None
        },
    }
}

pub open spec fn first_target_error(
    includes: Seq<Seq<char>>,
    targets: Seq<IncludeTargetView>,
    i: int,
) -> Option<ScanErrorView>
    decreases includes.len() - i,
{
    if i < 0 || i >= includes.len() || i >= targets.len() {
        None
    } else {
        match include_target_error(includes[i], targets[i]) {
            Some(error) => Some(error),
            None => first_target_error(includes, targets, i + 1),
        }
    }
}

/// Each selected path must be a supported, walked file, or a directory with selected sources.
pub fn check_include_targets(includes: &Vec<String>, targets: &Vec<IncludeTarget>) -> (r: Result<
    (),
    ScanError,
>)
    requires
        includes@.len() == targets@.len(),
    ensures
        match (r, first_target_error(includes.deep_view(), targets.deep_view(), 0)) {
            (Ok(()), None) => true,
            (Err(error), Some(expected)) => error@ == expected,
            _ => false,
        },
{
    let ghost names = includes.deep_view();
    let ghost found = targets.deep_view();
    let mut i: usize = 0;
    while i < includes.len()
        invariant
            i <= names.len(),
            names.len() == found.len(),
            names == includes.deep_view(),
            found == targets.deep_view(),
            first_target_error(names, found, 0) == first_target_error(names, found, i as int),
        decreases names.len() - i,
    {
        assert(names[i as int] == includes@[i as int]@ && found[i as int] == targets@[i as int]@);
        match &targets[i] {
            IncludeTarget::File { path, walked } => {
                if !supported(path.as_str()) {
                    return Err(ScanError::UnsupportedInclude(includes[i].clone()));
                }
                if !*walked {
                    return Err(ScanError::IgnoredInclude(includes[i].clone()));
                }
            },
            IncludeTarget::Directory { has_sources } => {
                if !*has_sources {
                    return Err(ScanError::EmptyIncludeDirectory(includes[i].clone()));
                }
            },
        }
        i = i + 1;
    }
    Ok(())
}

// ---------------------------------------------------------------- scanning files

/// A source file that the walker selected: its path relative to the scan root, and its
/// bytes or the reason they could not be read.
#[derive(Debug)]
pub struct SourceFile {
    pub path: String,
    pub contents: Result<Vec<u8>, String>,
}

/// Component-wise text order of `/`-separated paths, as paths are ordered.
pub open spec fn components_lt(a: Seq<Seq<char>>, b: Seq<Seq<char>>) -> bool
    decreases a.len(),
{
    if a.len() == 0 {
        b.len() > 0
    } else if b.len() == 0 {
        false
    } else if a[0] != b[0] {
        text_lt(a[0], b[0])
    } else {
        components_lt(a.drop_first(), b.drop_first())
    }
}

/// The files come as the walker sorts them: each path strictly before the next, component by
/// component.
pub open spec fn in_walk_order(files: Seq<SourceFileView>) -> bool {
    forall|i: int, j: int|
        0 <= i < j < files.len() ==> components_lt(
            split_on(#[trigger] files[i].path, '/'),
            split_on(#[trigger] files[j].path, '/'),
        )
}

pub struct SourceFileView {
    pub path: Seq<char>,
    pub contents: Result<Seq<u8>, Seq<char>>,
}

impl View for SourceFile {
    type V = SourceFileView;

    open spec fn view(&self) -> SourceFileView {
        SourceFileView {
            path: self.path@,
            contents: match &self.contents {
                Ok(bytes) => Ok(bytes@),
                Err(message) => Err(message@),
            },
        }
    }
}

impl DeepView for SourceFile {
    type V = SourceFileView;

    open spec fn deep_view(&self) -> SourceFileView {
        self@
    }
}

/// What the UTF-8 decoder and the parser give for one file. Only the parts that the scan
/// reaches for that file matter.
pub struct FileOutcome {
    pub decode_message: Seq<char>,
    pub parse: ParseOutcome,
}

/// The message of `std::str::from_utf8`'s error for `bytes`.
pub uninterp spec fn utf8_error_text(bytes: Seq<u8>) -> Seq<char>;

/// What decoding and parsing a file's bytes gives, in the language of its path.
pub open spec fn file_outcome(file: SourceFileView) -> FileOutcome {
    match file.contents {
        Ok(bytes) => FileOutcome {
            decode_message: utf8_error_text(bytes),
            parse: parse_outcome(path_language(report_path(file.path)).unwrap(), decode_utf8(bytes)),
        },
        Err(_) => FileOutcome { decode_message: Seq::empty(), parse: ParseOutcome::NoTree },
    }
}

/// The findings gathered from the files scanned so far.
pub struct ScanState {
    pub candidates: Seq<CandidateView>,
    pub definitions: Seq<DefinitionView>,
    pub parse_issues: Seq<IssueView>,
    pub scope_issues: Seq<IssueView>,
    pub application_files: nat,
    pub excluded_files: nat,
    /// Path, zero byte, contents, zero byte, for each application file that could be read.
    pub hashed: Seq<u8>,
    /// The application Python sources that gave a syntax tree.
    pub modules: Seq<ModuleView>,
    /// The application Python sources that gave no tree or a tree with an error.
    pub failed: Seq<Seq<char>>,
}

pub open spec fn empty_state() -> ScanState {
    ScanState {
        candidates: Seq::empty(),
        definitions: Seq::empty(),
        parse_issues: Seq::empty(),
        scope_issues: Seq::empty(),
        application_files: 0,
        excluded_files: 0,
        hashed: Seq::empty(),
        modules: Seq::empty(),
        failed: Seq::empty(),
    }
}

/// The path with `\` read as `/`.
pub open spec fn report_path(raw: Seq<char>) -> Seq<char> {
    replace_char(raw, '\\', '/')
}

/// No includes select everything; otherwise a path must be an include or lie below one.
pub open spec fn is_selected(includes: Seq<Seq<char>>, path: Seq<char>) -> bool {
    includes.len() == 0 || exists|i: int|
        0 <= i < includes.len() && (path == #[trigger] includes[i] || starts_with(
            path,
            includes[i] + seq!['/'],
        ))
}

pub open spec fn issue(path: Seq<char>, message: Seq<char>) -> IssueView {
    IssueView { path, message }
}

pub open spec fn role_message(role: Option<Result<SourceRole, Seq<char>>>) -> Seq<char> {
    match role {
        Some(Err(message)) => message,
        _ => Seq::empty(),
    }
}

/// What one file adds to the scan.
pub open spec fn scan_step(
    state: ScanState,
    entries: Option<Seq<ScopeEntryView>>,
    includes: Seq<Seq<char>>,
    file: SourceFileView,
) -> Result<ScanState, ScanErrorView> {
    let outcome = file_outcome(file);
    let path = report_path(file.path);
    let language = path_language(path).unwrap();
    let role = match entries {
        Some(listed) => Some(role_result(listed, path)),
        None => None,
    };
    if !is_selected(includes, path) {
        Ok(state)
    } else if role matches Some(Ok(found)) && found != SourceRole::Application {
        Ok(ScanState { excluded_files: state.excluded_files + 1, ..state })
    } else if role matches Some(Err(_)) {
        Ok(ScanState { scope_issues: state.scope_issues.push(issue(path, role_message(role))), ..state })
    } else {
        let counted = ScanState { application_files: state.application_files + 1, ..state };
        match file.contents {
            Err(message) => Ok(
                ScanState {
                    parse_issues: counted.parse_issues.push(
                        issue(path, "cannot read source: "@ + message),
                    ),
                    ..counted
                },
            ),
            Ok(bytes) => {
                let hashed = ScanState {
                    hashed: counted.hashed + encode_utf8(path) + seq![0u8] + bytes + seq![0u8],
                    ..counted
                };
                if !valid_utf8(bytes) {
                    Ok(
                        ScanState {
                            parse_issues: hashed.parse_issues.push(
                                issue(path, "cannot decode UTF-8 source: "@ + outcome.decode_message),
                            ),
                            ..hashed
                        },
                    )
                } else if !grammar_accepted(language) {
                    Err(ScanErrorView::ParserUnavailable(language))
                } else {
                    match outcome.parse {
                        ParseOutcome::GrammarRejected | ParseOutcome::NoTree => Ok(
                            ScanState {
                                parse_issues: hashed.parse_issues.push(
                                    issue(path, "parser returned no syntax tree"@),
                                ),
                                failed: if language == Language::Python {
                                    hashed.failed.push(path)
                                } else {
                                    hashed.failed
                                },
                                ..hashed
                            },
                        ),
                        ParseOutcome::Parsed(tree) => Ok(
                            ScanState {
                                parse_issues: if tree.has_error {
                                    hashed.parse_issues.push(
                                        issue(
                                            path,
                                            "syntax tree contains an ERROR or MISSING node"@,
                                        ),
                                    )
                                } else {
                                    hashed.parse_issues
                                },
                                candidates: hashed.candidates + numbered(
                                    tree_candidates(language, path, tree.root, None, None, false),
                                ),
                                definitions: hashed.definitions + tree_definitions(
                                    language,
                                    path,
                                    tree.root,
                                ),
                                modules: if language == Language::Python {
                                    hashed.modules.push(
                                        ModuleView {
                                            path,
                                            source: decode_utf8(bytes),
                                            root: tree.root,
                                        },
                                    )
                                } else {
                                    hashed.modules
                                },
                                failed: if language == Language::Python && tree.has_error {
                                    hashed.failed.push(path)
                                } else {
                                    hashed.failed
                                },
                                ..hashed
                            },
                        ),
                    }
                }
            },
        }
    }
}

pub open spec fn scan_files(
    entries: Option<Seq<ScopeEntryView>>,
    includes: Seq<Seq<char>>,
    files: Seq<SourceFileView>,
) -> Result<ScanState, ScanErrorView>
    decreases files.len(),
{
    if files.len() == 0 {
        Ok(empty_state())
    } else {
        match scan_files(entries, includes, files.drop_last()) {
            Err(error) => Err(error),
            Ok(state) => scan_step(state, entries, includes, files.last()),
        }
    }
}

/// The report of a scan of the given files.
pub open spec fn scan_report(
    root: Seq<char>,
    root_is_dir: bool,
    includes: Seq<Seq<char>>,
    manifest: Option<(Seq<ScopeEntryView>, Seq<char>, bool)>,
    files: Seq<SourceFileView>,
) -> Result<ScanReportView, ScanErrorView> {
    let entries = match manifest {
        Some(m) => Some(m.0),
        None => None,
    };
    match scan_files(entries, includes, files) {
        Err(error) => Err(error),
        Ok(state) => {
            let scope_issues = if manifest is Some && state.application_files == 0 {
                state.scope_issues.push(
                    issue("."@, "scope manifest selected no application source files"@),
                )
            } else {
                state.scope_issues
            };
            let specifications = sort_in_order::<SpecificationDefinition>(state.definitions);
            let closed_world = match manifest {
                Some(m) => m.2,
                None => false,
            };
            let incomplete = state.parse_issues.len() > 0 || scope_issues.len() > 0;
            Ok(
            ScanReportView {
                schema_version: SCHEMA_VERSION,
                root,
                includes,
                scope_manifest_digest: match manifest {
                    Some(m) => Some(m.1),
                    None => None,
                },
                scope_issues,
                scope_review_required: manifest is None && includes.len() == 0 && root_is_dir,
                application_files: state.application_files as usize,
                excluded_files: state.excluded_files as usize,
                candidates: sort_in_order::<Candidate>(state.candidates),
                specifications,
                source_digest: blake3_hex(state.hashed),
                parse_issues: state.parse_issues,
                specification_liveness: liveness_results(
                    specifications,
                    state.modules,
                    state.failed,
                    closed_world,
                    incomplete,
                ),
            },
        )
        },
    }
}

/// Calls `std::str::from_utf8`: text exactly when the bytes are valid UTF-8, and then the
/// text they encode; otherwise the error's message, which depends on the bytes alone.
#[verifier::external_body]
fn decode_source(bytes: &[u8]) -> (r: Result<String, String>)
    ensures
        r is Ok <==> valid_utf8(bytes@),
        r matches Ok(text) ==> text@ == decode_utf8(bytes@),
        r matches Err(message) ==> message@ == utf8_error_text(bytes@),
{
    match std::str::from_utf8(bytes) {
        Ok(text) => Ok(text.to_owned()),
        Err(error) => Err(error.to_string()),
    }
}

struct Findings {
    candidates: Vec<Candidate>,
    definitions: Vec<SpecificationDefinition>,
    parse_issues: Vec<ParseIssue>,
    scope_issues: Vec<ScopeIssue>,
    application_files: usize,
    excluded_files: usize,
    hashed: Vec<u8>,
    modules: Vec<ParsedModule>,
    failed: Vec<String>,
}

impl View for Findings {
    type V = ScanState;

    closed spec fn view(&self) -> ScanState {
        ScanState {
            candidates: self.candidates.deep_view(),
            definitions: self.definitions.deep_view(),
            parse_issues: self.parse_issues.deep_view(),
            scope_issues: self.scope_issues.deep_view(),
            application_files: self.application_files as nat,
            excluded_files: self.excluded_files as nat,
            hashed: self.hashed@,
            modules: self.modules.deep_view(),
            failed: self.failed.deep_view(),
        }
    }
}

fn selected_path(includes: &Vec<String>, path: &[char]) -> (r: bool)
    ensures
        r == is_selected(includes.deep_view(), path@),
{
    if includes.len() == 0 {
        return true;
    }
    let mut i: usize = 0;
    while i < includes.len()
        invariant
            i <= includes@.len(),
            includes@.len() > 0,
            forall|j: int|
                0 <= j < i ==> !(path@ == #[trigger] includes.deep_view()[j] || starts_with(
                    path@,
                    includes.deep_view()[j] + seq!['/'],
                )),
        decreases includes@.len() - i,
    {
        let prefix = to_chars(includes[i].as_str());
        let mut below = to_chars(includes[i].as_str());
        below.push('/');
        assert(includes.deep_view()[i as int] == includes@[i as int]@);
        assert(below@ =~= includes@[i as int]@ + seq!['/']);
        if equal_chars(path, prefix.as_slice()) || starts_with_exec(path, below.as_slice()) {
            return true;
        }
        i = i + 1;
    }
    false
}

fn append_bytes(target: &mut Vec<u8>, bytes: &[u8])
    ensures
        final(target)@ == old(target)@ + bytes@,
{
    let mut i: usize = 0;
    while i < bytes.len()
        invariant
            i <= bytes@.len(),
            target@ == old(target)@ + bytes@.take(i as int),
        decreases bytes@.len() - i,
    {
        assert(bytes@.take(i + 1) == bytes@.take(i as int).push(bytes@[i as int]));
        target.push(bytes[i]);
        i = i + 1;
    }
    assert(bytes@.take(bytes@.len() as int) == bytes@);
}

fn message_with(prefix: &str, detail: &str) -> (r: String)
    ensures
        r@ == prefix@ + detail@,
{
    let mut text = to_chars(prefix);
    append_str(&mut text, detail);
    string_from(text.as_slice())
}

fn add_parse_issue(findings: &mut Findings, path: &String, message: String)
    ensures
        final(findings)@ == (ScanState {
            parse_issues: old(findings)@.parse_issues.push(issue(path@, message@)),
            ..old(findings)@
        }),
{
    let ghost before = findings.parse_issues.deep_view();
    findings.parse_issues.push(ParseIssue { path: path.clone(), message });
    assert(findings.parse_issues.deep_view() =~= before.push(issue(path@, message@)));
}

/// Every candidate's fingerprint is `language:path:kind:hash:occurrence`.
pub open spec fn fingerprints_in_form(candidates: Seq<CandidateView>) -> bool {
    forall|k: int| 0 <= k < candidates.len() ==> has_fingerprint_form(#[trigger] candidates[k])
}

/// `after` is `before` followed by candidates of the file at `path`, each in the fingerprint
/// form, no two with one fingerprint.
pub open spec fn appended_in_form(
    before: Seq<CandidateView>,
    after: Seq<CandidateView>,
    path: Seq<char>,
) -> bool {
    &&& before.len() <= after.len()
    &&& forall|k: int| 0 <= k < before.len() ==> #[trigger] after[k] == before[k]
    &&& forall|k: int|
        before.len() <= k < after.len() ==> has_fingerprint_form(#[trigger] after[k]) && after[k].path
            == path
    &&& distinct_fingerprints(after.subrange(before.len() as int, after.len() as int))
}

/// No two files have one path in the report.
pub open spec fn distinct_report_paths(files: Seq<SourceFileView>) -> bool {
    forall|i: int, j: int|
        0 <= i < files.len() && 0 <= j < files.len() && i != j ==> report_path(
            #[trigger] files[i].path,
        ) != report_path(#[trigger] files[j].path)
}

/// Each candidate gathered from the first `i` files has the fingerprint form and the path
/// of one of those files; where the files' paths differ, no two share a fingerprint.
pub open spec fn candidates_in_form(
    candidates: Seq<CandidateView>,
    files: Seq<SourceFileView>,
    i: int,
) -> bool {
    &&& forall|k: int|
        0 <= k < candidates.len() ==> has_fingerprint_form(#[trigger] candidates[k]) && exists|
            m: int,
        | 0 <= m < i && candidates[k].path == report_path(#[trigger] files[m].path)
    &&& distinct_report_paths(files) ==> distinct_fingerprints(candidates)
}

proof fn lemma_candidates_step(
    before: Seq<CandidateView>,
    after: Seq<CandidateView>,
    files: Seq<SourceFileView>,
    i: int,
)
    requires
        0 <= i < files.len(),
        candidates_in_form(before, files, i),
        appended_in_form(before, after, report_path(files[i].path)),
    ensures
        candidates_in_form(after, files, i + 1),
{
    assert forall|k: int| 0 <= k < after.len() implies has_fingerprint_form(#[trigger] after[k])
        && exists|m: int| 0 <= m < i + 1 && after[k].path == report_path(#[trigger] files[m].path) by {
        if k < before.len() {
            assert(after[k] == before[k]);
            let m = choose|m: int| 0 <= m < i && before[k].path == report_path(#[trigger] files[m].path);
            assert(after[k].path == report_path(files[m].path));
        } else {
            assert(after[k].path == report_path(files[i].path));
        }
    }
    if distinct_report_paths(files) {
        let added = after.subrange(before.len() as int, after.len() as int);
        assert forall|x: int, y: int| 0 <= x < before.len() && 0 <= y < added.len() implies (
        #[trigger] before[x]).fingerprint != (#[trigger] added[y]).fingerprint by {
            let m = choose|m: int| 0 <= m < i && before[x].path == report_path(#[trigger] files[m].path);
            assert(added[y] == after[before.len() + y]);
            assert(report_path(files[m].path) != report_path(files[i].path));
            lemma_paths_part_fingerprints(before[x], added[y]);
        }
        lemma_append_distinct(before, added);
        assert(before + added =~= after);
    }
}

fn scan_file(
    findings: &mut Findings,
    manifest: Option<&ScopeManifest>,
    includes: &Vec<String>,
    file: &SourceFile,
) -> (r: Result<(), ScanError>)
    requires
        path_language(report_path(file@.path)) is Some,
        old(findings).application_files < usize::MAX,
        old(findings).excluded_files < usize::MAX,
    ensures
        match (
            r,
            scan_step(
                old(findings)@,
                match manifest {
                    Some(m) => Some(m.entries.deep_view()),
                    None => None,
                },
                includes.deep_view(),
                file@,
            ),
        ) {
            (Ok(()), Ok(state)) => final(findings)@ == state,
            (Err(error), Err(expected)) => error@ == expected,
            _ => false,
        },
        r is Ok ==> appended_in_form(old(findings)@.candidates, final(findings)@.candidates, report_path(file@.path)),
{
    let ghost entries = match manifest {
        Some(m) => Some(m.entries.deep_view()),
        None => None,
    };
    let ghost start = findings@;
    let raw = to_chars(file.path.as_str());
    let path_chars = replaced(raw.as_slice(), '\\', '/');
    let path = string_from(path_chars.as_slice());
    let language = match language_of(path.as_str()) {
        Some(language) => language,
        None => {
            assert(false);
            return Ok(());
        },
    };
    if !selected_path(includes, path_chars.as_slice()) {
        return Ok(());
    }
    match manifest {
        Some(m) => match m.role_for(path.as_str()) {
            Ok(SourceRole::Application) => {},
            Ok(_) => {
                findings.excluded_files = findings.excluded_files + 1;
                return Ok(());
            },
            Err(message) => {
                let ghost before = findings.scope_issues.deep_view();
                let ghost text = message@;
                findings.scope_issues.push(ScopeIssue { path: path.clone(), message });
                assert(findings.scope_issues.deep_view() =~= before.push(issue(path@, text)));
                return Ok(());
            },
        },
        None => {},
    }
    findings.application_files = findings.application_files + 1;
    let bytes = match &file.contents {
        Err(message) => {
            let text = message_with("cannot read source: ", message.as_str());
            add_parse_issue(findings, &path, text);
            return Ok(());
        },
        Ok(bytes) => bytes,
    };
    append_bytes(&mut findings.hashed, path.as_str().as_bytes());
    findings.hashed.push(0u8);
    append_bytes(&mut findings.hashed, bytes.as_slice());
    findings.hashed.push(0u8);
    let ghost hashed = findings@;
    assert(hashed.hashed =~= start.hashed + encode_utf8(path@) + seq![0u8] + bytes@ + seq![0u8]);
    let source = match decode_source(bytes.as_slice()) {
        Ok(source) => source,
        Err(message) => {
            let text = message_with("cannot decode UTF-8 source: ", message.as_str());
            add_parse_issue(findings, &path, text);
            return Ok(());
        },
    };
    let parsed = parse_source(language, source.as_str());
    match parsed {
        ParseOutcome::GrammarRejected => {
            return Err(ScanError::ParserUnavailable(language));
        },
        ParseOutcome::NoTree => {
            add_parse_issue(findings, &path, "parser returned no syntax tree".to_owned());
            if language == Language::Python {
                let ghost before = findings.failed.deep_view();
                findings.failed.push(path.clone());
                assert(findings.failed.deep_view() =~= before.push(path@));
            }
            return Ok(());
        },
        ParseOutcome::Parsed(tree) => {
            if tree.has_error {
                add_parse_issue(
                    findings,
                    &path,
                    "syntax tree contains an ERROR or MISSING node".to_owned(),
                );
            }
            let (mut candidates, mut definitions) = analyze_file(&tree, language, path.as_str());
            let ghost found_candidates = candidates.deep_view();
            let ghost found_definitions = definitions.deep_view();
            let ghost before_candidates = findings.candidates.deep_view();
            let ghost before_definitions = findings.definitions.deep_view();
            let ghost before_c = findings.candidates@;
            let ghost before_d = findings.definitions@;
            let ghost added_c = candidates@;
            let ghost added_d = definitions@;
            findings.candidates.append(&mut candidates);
            findings.definitions.append(&mut definitions);
            assert(findings.candidates@ == before_c + added_c);
            assert(findings.candidates.deep_view() =~= before_candidates + found_candidates);
            assert(findings.definitions@ == before_d + added_d);
            assert(findings.definitions.deep_view() =~= before_definitions + found_definitions);
            if language == Language::Python {
                if tree.has_error {
                    let ghost before = findings.failed.deep_view();
                    findings.failed.push(path.clone());
                    assert(findings.failed.deep_view() =~= before.push(path@));
                }
                let ghost before = findings.modules.deep_view();
                let ghost module = ModuleView { path: path@, source: source@, root: tree.root };
                findings.modules.push(ParsedModule { path: path.clone(), source, root: tree.root });
                assert(findings.modules.deep_view() =~= before.push(module));
            }
            return Ok(());
        },
    }
}

/// The manifest's entries and digest, as the report spec takes them.
pub open spec fn manifest_view(manifest: Option<&ScopeManifest>) -> Option<
    (Seq<ScopeEntryView>, Seq<char>, bool),
> {
    match manifest {
        Some(m) => Some((m.entries.deep_view(), m.digest@, m.closed_world)),
        None => None,
    }
}

/// Scans the selected source files of a root: filters them by the includes and the manifest,
/// parses the application sources, and reports candidates, Specification definitions,
/// issues, counts, and the digest of the sources.
pub fn scan_sources(
    root: String,
    root_is_dir: bool,
    includes: Vec<String>,
    manifest: Option<&ScopeManifest>,
    files: &Vec<SourceFile>,
) -> (r: Result<ScanReport, ScanError>)
    requires
        forall|i: int|
            0 <= i < files@.len() ==> path_language(report_path(#[trigger] files@[i]@.path)) is Some,
        in_walk_order(files.deep_view()),
    ensures
        match (
            r,
            scan_report(
                root@,
                root_is_dir,
                includes.deep_view(),
                manifest_view(manifest),
                files.deep_view(),
            ),
        ) {
            (Ok(report), Ok(expected)) => report@ == expected,
            (Err(error), Err(expected)) => error@ == expected,
            _ => false,
        },
        r matches Ok(report) ==> fingerprints_in_form(report@.candidates),
        r matches Ok(report) ==> (distinct_report_paths(files.deep_view()) ==> distinct_fingerprints(
            report@.candidates,
        )),
{
    let ghost entries = match manifest {
        Some(m) => Some(m.entries.deep_view()),
        None => None,
    };
    let ghost all = files.deep_view();
    let ghost includes_view = includes.deep_view();
    let mut findings = Findings {
        candidates: Vec::new(),
        definitions: Vec::new(),
        parse_issues: Vec::new(),
        scope_issues: Vec::new(),
        application_files: 0,
        excluded_files: 0,
        hashed: Vec::new(),
        modules: Vec::new(),
        failed: Vec::new(),
    };
    assert(findings.candidates.deep_view() =~= Seq::<CandidateView>::empty());
    assert(findings.definitions.deep_view() =~= Seq::<DefinitionView>::empty());
    assert(findings.parse_issues.deep_view() =~= Seq::<IssueView>::empty());
    assert(findings.scope_issues.deep_view() =~= Seq::<IssueView>::empty());
    assert(findings.modules.deep_view() =~= Seq::<ModuleView>::empty());
    assert(findings.failed.deep_view() =~= Seq::<Seq<char>>::empty());
    assert(findings@ == empty_state());
    let mut i: usize = 0;
    while i < files.len()
        invariant
            i <= files@.len(),
            all == files.deep_view(),
            entries == (match manifest {
                Some(m) => Some(m.entries.deep_view()),
                None => None,
            }),
            findings.application_files + findings.excluded_files <= i,
            forall|j: int|
                0 <= j < files@.len() ==> path_language(report_path(#[trigger] files@[j]@.path))
                    is Some,
            scan_files(entries, includes.deep_view(), all.take(i as int)) == Ok::<
                ScanState,
                ScanErrorView,
            >(findings@),
            candidates_in_form(findings@.candidates, all, i as int),
        decreases files@.len() - i,
    {
        assert(all[i as int] == files@[i as int]@);
        let ghost before_state = findings@;
        let result = scan_file(&mut findings, manifest, &includes, &files[i]);
        proof {
            let prefix = all.take(i + 1);
            assert(prefix.drop_last() =~= all.take(i as int));
            assert(prefix.last() == all[i as int]);
            assert(scan_files(entries, includes.deep_view(), prefix) == scan_step(
                before_state,
                entries,
                includes.deep_view(),
                all[i as int],
            ));
        }
        match result {
            Ok(()) => {
                proof {
                    lemma_candidates_step(before_state.candidates, findings@.candidates, all, i as int);
                }
            },
            Err(error) => {
                proof {
                    assert(scan_files(entries, includes.deep_view(), all.take(i + 1)) is Err);
                    lemma_scan_files_error(entries, includes.deep_view(), all, i + 1);
                    assert(scan_report(
                        root@,
                        root_is_dir,
                        includes.deep_view(),
                        manifest_view(manifest),
                        files.deep_view(),
                    ) is Err);
                }
                return Err(error);
            },
        }
        i = i + 1;
    }
    assert(all.take(i as int) =~= all);
    let ghost state = findings@;
    let mut scope_issues = findings.scope_issues;
    if manifest.is_some() && findings.application_files == 0 {
        let ghost before = scope_issues.deep_view();
        scope_issues.push(
            ScopeIssue {
                path: ".".to_owned(),
                message: "scope manifest selected no application source files".to_owned(),
            },
        );
        assert(scope_issues.deep_view() =~= before.push(
            issue("."@, "scope manifest selected no application source files"@),
        ));
    }
    let candidates = sort_stable(findings.candidates);
    proof {
        lemma_sort_candidates(state.candidates);
        assert forall|k: int| 0 <= k < candidates.deep_view().len() implies has_fingerprint_form(
            #[trigger] candidates.deep_view()[k],
        ) by {
            let m = choose|m: int| 0 <= m < state.candidates.len() && state.candidates[m]
                == candidates.deep_view()[k];
            assert(has_fingerprint_form(state.candidates[m]));
        }
    }
    let specifications = sort_stable(findings.definitions);
    let closed_world = match manifest {
        Some(m) => m.closed_world,
        None => false,
    };
    let incomplete = findings.parse_issues.len() > 0 || scope_issues.len() > 0;
    let specification_liveness = classify_parsed(
        &specifications,
        &findings.modules,
        &findings.failed,
        closed_world,
        incomplete,
    );
    let source_digest = blake3_digest(findings.hashed.as_slice());
    let scope_review_required = manifest.is_none() && includes.len() == 0 && root_is_dir;
    let digest = match manifest {
        Some(m) => Some(m.digest.clone()),
        None => None,
    };
    let report = ScanReport {
        schema_version: SCHEMA_VERSION,
        root,
        includes,
        scope_manifest_digest: digest,
        scope_issues,
        scope_review_required,
        application_files: findings.application_files,
        excluded_files: findings.excluded_files,
        candidates,
        specifications,
        source_digest,
        parse_issues: findings.parse_issues,
        specification_liveness,
    };
    assert(scan_report(
        root@,
        root_is_dir,
        includes_view,
        manifest_view(manifest),
        files.deep_view(),
    ) == Ok::<ScanReportView, ScanErrorView>(report@));
    Ok(report)
}

/// The result of a whole scan: the includes normalized, refused beside a manifest, checked
/// against what the file system showed of them, then the selected files scanned.
pub open spec fn scope_scan_result(
    root: Seq<char>,
    root_is_dir: bool,
    raw_includes: Seq<Seq<char>>,
    targets: Seq<IncludeTargetView>,
    manifest: Option<(Seq<ScopeEntryView>, Seq<char>, bool)>,
    files: Seq<SourceFileView>,
) -> Result<ScanReportView, ScanErrorView> {
    match includes_result(raw_includes) {
        Err(selection) => Err(ScanErrorView::InvalidInclude(selection)),
        Ok(includes) => if manifest is Some && includes.len() > 0 {
            Err(ScanErrorView::IncludeWithManifest)
        } else {
            match first_target_error(includes, targets, 0) {
                Some(error) => Err(error),
                None => scan_report(root, root_is_dir, includes, manifest, files),
            }
        },
    }
}

/// Scans a root with an optional scope manifest. `targets` holds, for each normalized
/// include in order, what the file system showed of it; `files` the sources that the walker
/// selected, in the walker's path order.
pub fn scan_with_scope(
    root: String,
    root_is_dir: bool,
    includes: &Vec<String>,
    targets: &Vec<IncludeTarget>,
    manifest: Option<&ScopeManifest>,
    files: &Vec<SourceFile>,
) -> (r: Result<ScanReport, ScanError>)
    requires
        includes_result(includes.deep_view()) matches Ok(normalized) ==> targets@.len()
            == normalized.len(),
        forall|i: int|
            0 <= i < files@.len() ==> path_language(report_path(#[trigger] files@[i]@.path)) is Some,
        in_walk_order(files.deep_view()),
    ensures
        match (
            r,
            scope_scan_result(
                root@,
                root_is_dir,
                includes.deep_view(),
                targets.deep_view(),
                manifest_view(manifest),
                files.deep_view(),
            ),
        ) {
            (Ok(report), Ok(expected)) => report@ == expected,
            (Err(error), Err(expected)) => error@ == expected,
            _ => false,
        },
        r matches Ok(report) ==> fingerprints_in_form(report@.candidates),
        r matches Ok(report) ==> (distinct_report_paths(files.deep_view()) ==> distinct_fingerprints(
            report@.candidates,
        )),
{
    let normalized = match select_includes(includes, manifest.is_some()) {
        Ok(normalized) => normalized,
        Err(error) => {
            return Err(error);
        },
    };
    match check_include_targets(&normalized, targets) {
        Ok(()) => {},
        Err(error) => {
            return Err(error);
        },
    }
    scan_sources(root, root_is_dir, normalized, manifest, files)
}

/// Scans a root without a scope manifest.
pub fn scan(
    root: String,
    root_is_dir: bool,
    includes: &Vec<String>,
    targets: &Vec<IncludeTarget>,
    files: &Vec<SourceFile>,
) -> (r: Result<ScanReport, ScanError>)
    requires
        includes_result(includes.deep_view()) matches Ok(normalized) ==> targets@.len()
            == normalized.len(),
        forall|i: int|
            0 <= i < files@.len() ==> path_language(report_path(#[trigger] files@[i]@.path)) is Some,
        in_walk_order(files.deep_view()),
    ensures
        match (
            r,
            scope_scan_result(
                root@,
                root_is_dir,
                includes.deep_view(),
                targets.deep_view(),
                None,
                files.deep_view(),
            ),
        ) {
            (Ok(report), Ok(expected)) => report@ == expected,
            (Err(error), Err(expected)) => error@ == expected,
            _ => false,
        },
        r matches Ok(report) ==> fingerprints_in_form(report@.candidates),
        r matches Ok(report) ==> (distinct_report_paths(files.deep_view()) ==> distinct_fingerprints(
            report@.candidates,
        )),
{
    scan_with_scope(root, root_is_dir, includes, targets, None, files)
}

// ---------------------------------------------------------------- the order of includes

/// Every item is at most every later one in text order.
pub open spec fn is_nondecreasing(items: Seq<Seq<char>>) -> bool {
    forall|i: int, j: int| 0 <= i < j < items.len() ==> !text_lt(#[trigger] items[j], #[trigger] items[i])
}

/// Every item comes strictly before every later one in text order: sorted, with no repeats.
pub open spec fn is_strictly_increasing(items: Seq<Seq<char>>) -> bool {
    forall|i: int, j: int| 0 <= i < j < items.len() ==> text_lt(#[trigger] items[i], #[trigger] items[j])
}

proof fn lemma_insert_keeps_order(sorted: Seq<Seq<char>>, x: Seq<char>)
    requires
        is_nondecreasing(sorted),
    ensures
        is_nondecreasing(insert_in_order::<String>(sorted, x)),
        insert_in_order::<String>(sorted, x).len() == sorted.len() + 1,
        forall|k: int|
            0 <= k < insert_in_order::<String>(sorted, x).len() ==> (#[trigger] insert_in_order::<
                String,
            >(sorted, x)[k] == x || sorted.contains(insert_in_order::<String>(sorted, x)[k])),
    decreases sorted.len(),
{
    let result = insert_in_order::<String>(sorted, x);
    if sorted.len() == 0 {
    } else if !text_lt(x, sorted.last()) {
        assert forall|i: int, j: int| 0 <= i < j < result.len() implies !text_lt(
            #[trigger] result[j],
            #[trigger] result[i],
        ) by {
            if j == result.len() - 1 {
                // x is not below the last item, which is not below any earlier one
                if i < sorted.len() - 1 {
                    assert(!text_lt(sorted[sorted.len() - 1], sorted[i]));
                    if text_lt(x, sorted[i]) {
                        if sorted.last() == x {
                        } else if sorted.last() == sorted[i] {
                        } else {
                            lemma_text_lt_total(sorted.last(), sorted[i], 0);
                            lemma_text_lt_total(x, sorted.last(), 0);
                            lemma_text_lt_transitive(sorted[i], sorted.last(), x, 0);
                            lemma_text_lt_asymmetric(sorted[i], x, 0);
                        }
                    }
                }
            }
        }
        assert forall|k: int| 0 <= k < result.len() implies (#[trigger] result[k] == x
            || sorted.contains(result[k])) by {
            if k < sorted.len() {
                assert(result[k] == sorted[k]);
            }
        }
    } else {
        let shorter = sorted.drop_last();
        assert forall|i: int, j: int| 0 <= i < j < shorter.len() implies !text_lt(
            #[trigger] shorter[j],
            #[trigger] shorter[i],
        ) by {
            assert(shorter[i] == sorted[i] && shorter[j] == sorted[j]);
        }
        lemma_insert_keeps_order(shorter, x);
        let inner = insert_in_order::<String>(shorter, x);
        assert(result == inner.push(sorted.last()));
        assert forall|i: int, j: int| 0 <= i < j < result.len() implies !text_lt(
            #[trigger] result[j],
            #[trigger] result[i],
        ) by {
            if j == result.len() - 1 {
                assert(result[i] == inner[i]);
                if inner[i] == x {
                    lemma_text_lt_asymmetric(x, sorted.last(), 0);
                } else {
                    assert(shorter.contains(inner[i]));
                    let m = choose|m: int| 0 <= m < shorter.len() && shorter[m] == inner[i];
                    assert(!text_lt(sorted[sorted.len() - 1], sorted[m]));
                }
            } else {
                assert(result[i] == inner[i] && result[j] == inner[j]);
            }
        }
        assert forall|k: int| 0 <= k < result.len() implies (#[trigger] result[k] == x
            || sorted.contains(result[k])) by {
            if k < inner.len() {
                assert(result[k] == inner[k]);
                if inner[k] != x {
                    let m = choose|m: int| 0 <= m < shorter.len() && shorter[m] == inner[k];
                    assert(sorted[m] == inner[k]);
                }
            } else {
                assert(result[k] == sorted[sorted.len() - 1]);
            }
        }
    }
}

proof fn lemma_sort_keeps_order(items: Seq<Seq<char>>)
    ensures
        is_nondecreasing(sort_in_order::<String>(items)),
    decreases items.len(),
{
    if items.len() > 0 {
        lemma_sort_keeps_order(items.drop_last());
        lemma_insert_keeps_order(sort_in_order::<String>(items.drop_last()), items.last());
    }
}

proof fn lemma_dedup_increasing(items: Seq<Seq<char>>)
    requires
        is_nondecreasing(items),
    ensures
        is_strictly_increasing(dedup_adjacent(items)),
        forall|k: int|
            0 <= k < dedup_adjacent(items).len() ==> items.contains(
                #[trigger] dedup_adjacent(items)[k],
            ),
    decreases items.len(),
{
    if items.len() <= 1 {
    } else {
        let shorter = items.drop_last();
        assert forall|i: int, j: int| 0 <= i < j < shorter.len() implies !text_lt(
            #[trigger] shorter[j],
            #[trigger] shorter[i],
        ) by {
            assert(shorter[i] == items[i] && shorter[j] == items[j]);
        }
        lemma_dedup_increasing(shorter);
        let kept = dedup_adjacent(shorter);
        assert forall|k: int| 0 <= k < kept.len() implies items.contains(#[trigger] kept[k]) by {
            let m = choose|m: int| 0 <= m < shorter.len() && shorter[m] == kept[k];
            assert(items[m] == kept[k]);
        }
        if items[items.len() - 1] != items[items.len() - 2] {
            let result = kept.push(items.last());
            crate::order::lemma_dedup_last(shorter);
            assert forall|i: int, j: int| 0 <= i < j < result.len() implies text_lt(
                #[trigger] result[i],
                #[trigger] result[j],
            ) by {
                if j == result.len() - 1 {
                    let m = choose|m: int| 0 <= m < shorter.len() && shorter[m] == kept[i];
                    let last = items.len() - 1;
                    assert(!text_lt(items[last], items[m]));
                    assert(!text_lt(items[last], items[last - 1]));
                    lemma_text_lt_total(items[last - 1], items[last], 0);
                    if i == kept.len() - 1 {
                        assert(kept[i] == items[last - 1]);
                    } else {
                        assert(text_lt(kept[i], kept[kept.len() - 1]));
                        assert(kept[kept.len() - 1] == items[last - 1]);
                        lemma_text_lt_transitive(kept[i], items[last - 1], items[last], 0);
                    }
                } else {
                    assert(result[i] == kept[i] && result[j] == kept[j]);
                }
            }
            assert forall|k: int| 0 <= k < result.len() implies items.contains(
                #[trigger] result[k],
            ) by {
                if k == result.len() - 1 {
                    assert(items[items.len() - 1] == result[k]);
                } else {
                    assert(result[k] == kept[k]);
                }
            }
        }
    }
}

proof fn lemma_insert_keeps_items(sorted: Seq<Seq<char>>, x: Seq<char>)
    ensures
        insert_in_order::<String>(sorted, x).contains(x),
        forall|k: int|
            0 <= k < sorted.len() ==> insert_in_order::<String>(sorted, x).contains(
                #[trigger] sorted[k],
            ),
    decreases sorted.len(),
{
    let result = insert_in_order::<String>(sorted, x);
    if sorted.len() == 0 {
        assert(result[0] == x);
    } else if !text_lt(x, sorted.last()) {
        assert(result[sorted.len() as int] == x);
        assert forall|k: int| 0 <= k < sorted.len() implies result.contains(#[trigger] sorted[k]) by {
            assert(result[k] == sorted[k]);
        }
    } else {
        let shorter = sorted.drop_last();
        lemma_insert_keeps_items(shorter, x);
        let inner = insert_in_order::<String>(shorter, x);
        let at = choose|m: int| 0 <= m < inner.len() && inner[m] == x;
        assert(result[at] == x);
        assert forall|k: int| 0 <= k < sorted.len() implies result.contains(#[trigger] sorted[k]) by {
            if k == sorted.len() - 1 {
                assert(result[result.len() - 1] == sorted[k]);
            } else {
                assert(shorter[k] == sorted[k]);
                let m = choose|m: int| 0 <= m < inner.len() && inner[m] == shorter[k];
                assert(result[m] == sorted[k]);
            }
        }
    }
}

proof fn lemma_sort_keeps_items(items: Seq<Seq<char>>)
    ensures
        forall|k: int| 0 <= k < items.len() ==> sort_in_order::<String>(items).contains(#[trigger] items[k]),
    decreases items.len(),
{
    if items.len() > 0 {
        let shorter = items.drop_last();
        lemma_sort_keeps_items(shorter);
        let sorted = sort_in_order::<String>(shorter);
        lemma_insert_keeps_items(sorted, items.last());
        let result = sort_in_order::<String>(items);
        assert forall|k: int| 0 <= k < items.len() implies result.contains(#[trigger] items[k]) by {
            if k < items.len() - 1 {
                assert(shorter[k] == items[k]);
                let m = choose|m: int| 0 <= m < sorted.len() && sorted[m] == shorter[k];
                assert(sorted.contains(sorted[m]));
            }
        }
    }
}

proof fn lemma_dedup_keeps_items(items: Seq<Seq<char>>)
    ensures
        forall|k: int| 0 <= k < items.len() ==> dedup_adjacent(items).contains(#[trigger] items[k]),
    decreases items.len(),
{
    if items.len() > 1 {
        let shorter = items.drop_last();
        lemma_dedup_keeps_items(shorter);
        let kept = dedup_adjacent(shorter);
        let result = dedup_adjacent(items);
        crate::order::lemma_dedup_last(shorter);
        assert forall|k: int| 0 <= k < items.len() implies result.contains(#[trigger] items[k]) by {
            if k < items.len() - 1 {
                assert(shorter[k] == items[k]);
                let m = choose|m: int| 0 <= m < kept.len() && kept[m] == shorter[k];
                if items[items.len() - 1] == items[items.len() - 2] {
                    assert(result[m] == items[k]);
                } else {
                    assert(result[m] == items[k]);
                }
            } else if items[items.len() - 1] == items[items.len() - 2] {
                assert(shorter[items.len() - 2] == items[k]);
                let m = choose|m: int| 0 <= m < kept.len() && kept[m] == shorter[items.len() - 2];
                assert(result[m] == items[k]);
            } else {
                assert(result[result.len() - 1] == items[k]);
            }
        }
    } else if items.len() == 1 {
        assert(dedup_adjacent(items)[0] == items[0]);
    }
}

/// Every path given, normalized, is among the normalized includes.
pub proof fn lemma_includes_keep_every_path(raw: Seq<Seq<char>>)
    ensures
        includes_result(raw) matches Ok(includes) ==> forall|k: int|
            0 <= k < raw.len() ==> includes.contains(normalized_include(#[trigger] raw[k])),
{
    let normalized = Seq::new(raw.len(), |i: int| normalized_include(raw[i]));
    lemma_sort_keeps_items(normalized);
    let sorted = sort_in_order::<String>(normalized);
    lemma_dedup_keeps_items(sorted);
    if includes_result(raw) is Ok {
        assert forall|k: int| 0 <= k < raw.len() implies dedup_adjacent(sorted).contains(
            normalized_include(#[trigger] raw[k]),
        ) by {
            assert(normalized[k] == normalized_include(raw[k]));
            let m = choose|m: int| 0 <= m < sorted.len() && sorted[m] == normalized[k];
            assert(dedup_adjacent(sorted).contains(sorted[m]));
        }
    }
}

/// Normalized includes are listed in text order, each once.
pub proof fn lemma_includes_sorted_without_duplicates(raw: Seq<Seq<char>>)
    ensures
        includes_result(raw) matches Ok(includes) ==> is_strictly_increasing(includes),
{
    let normalized = Seq::new(raw.len(), |i: int| normalized_include(raw[i]));
    lemma_sort_keeps_order(normalized);
    lemma_dedup_increasing(sort_in_order::<String>(normalized));
}

/// The report classifies each Specification definition it lists, in the same order and at
/// the same place; without a scope manifest no world is closed, so none is dead.
pub proof fn lemma_liveness_follows_definitions(
    root: Seq<char>,
    root_is_dir: bool,
    includes: Seq<Seq<char>>,
    manifest: Option<(Seq<ScopeEntryView>, Seq<char>, bool)>,
    files: Seq<SourceFileView>,
)
    ensures
        scan_report(root, root_is_dir, includes, manifest, files) matches Ok(report) ==> {
            &&& report.specification_liveness.len() == report.specifications.len()
            &&& forall|i: int|
                0 <= i < report.specifications.len() ==> {
                    let result = #[trigger] report.specification_liveness[i];
                    let definition = report.specifications[i];
                    &&& result.language == definition.language
                    &&& result.path == definition.path
                    &&& result.name == definition.name
                    &&& result.kind == definition.kind
                    &&& result.line == definition.line
                    &&& result.column == definition.column
                    &&& (manifest is None ==> result.status
                        != SpecificationLivenessStatus::Dead)
                }
        },
{
    if let Ok(report) = scan_report(root, root_is_dir, includes, manifest, files) {
        let entries = match manifest {
            Some(m) => Some(m.0),
            None => None,
        };
        let state = scan_files(entries, includes, files)->Ok_0;
        let scope_issues = if manifest is Some && state.application_files == 0 {
            state.scope_issues.push(
                issue("."@, "scope manifest selected no application source files"@),
            )
        } else {
            state.scope_issues
        };
        let closed_world = match manifest {
            Some(m) => m.2,
            None => false,
        };
        let incomplete = state.parse_issues.len() > 0 || scope_issues.len() > 0;
        assert forall|i: int| 0 <= i < report.specifications.len() implies {
            let result = #[trigger] report.specification_liveness[i];
            let definition = report.specifications[i];
            &&& result.language == definition.language
            &&& result.path == definition.path
            &&& result.name == definition.name
            &&& result.kind == definition.kind
            &&& result.line == definition.line
            &&& result.column == definition.column
            &&& (manifest is None ==> result.status != SpecificationLivenessStatus::Dead)
        } by {
            lemma_liveness_rules(
                report.specifications,
                state.modules,
                state.failed,
                closed_world,
                incomplete,
                i,
            );
        }
    }
}

/// An error in the files scanned so far stays the scan's error, whatever follows.
proof fn lemma_scan_files_error(
    entries: Option<Seq<ScopeEntryView>>,
    includes: Seq<Seq<char>>,
    files: Seq<SourceFileView>,
    k: int,
)
    requires
        0 <= k <= files.len(),
        scan_files(entries, includes, files.take(k)) is Err,
    ensures
        scan_files(entries, includes, files) == scan_files(entries, includes, files.take(k)),
    decreases files.len() - k,
{
    if k < files.len() {
        let longer = files.take(k + 1);
        assert(longer.drop_last() =~= files.take(k));
        assert(scan_files(entries, includes, longer) == scan_files(entries, includes, files.take(k)));
        lemma_scan_files_error(entries, includes, files, k + 1);
    } else {
        assert(files.take(k) =~= files);
    }
}

/// The manifest's entries give the source at `path` a role other than application.
pub open spec fn outside_application(entries: Seq<ScopeEntryView>, path: Seq<char>) -> bool {
    match role_result(entries, report_path(path)) {
        Ok(role) => role != SourceRole::Application,
        Err(_) => false,
    }
}

/// The two file lists name the same paths in the same order, and differ in their contents
/// only where the manifest's entries give the file a role other than application.
pub open spec fn same_application_sources(
    entries: Seq<ScopeEntryView>,
    first: Seq<SourceFileView>,
    second: Seq<SourceFileView>,
) -> bool {
    &&& first.len() == second.len()
    &&& forall|i: int|
        0 <= i < first.len() ==> (#[trigger] first[i]).path == second[i].path && (first[i].contents
            == second[i].contents || outside_application(entries, first[i].path))
}

proof fn lemma_scan_files_application_only(
    entries: Seq<ScopeEntryView>,
    includes: Seq<Seq<char>>,
    first: Seq<SourceFileView>,
    second: Seq<SourceFileView>,
)
    requires
        same_application_sources(entries, first, second),
    ensures
        scan_files(Some(entries), includes, first) == scan_files(Some(entries), includes, second),
    decreases first.len(),
{
    if first.len() > 0 {
        let n = first.len() - 1;
        assert forall|i: int| 0 <= i < first.drop_last().len() implies (#[trigger] first.drop_last()[i]).path
            == second.drop_last()[i].path && (first.drop_last()[i].contents
            == second.drop_last()[i].contents || outside_application(
            entries,
            first.drop_last()[i].path,
        )) by {
            assert(first.drop_last()[i] == first[i] && second.drop_last()[i] == second[i]);
        }
        lemma_scan_files_application_only(entries, includes, first.drop_last(), second.drop_last());
        assert(first[n].path == second[n].path);
        if first[n].contents == second[n].contents {
            assert(first.last() == second.last());
        }
    }
}

/// With a scope manifest, a scan reads only the application sources: rewriting a file to
/// which the manifest gives another role changes nothing in the report.
pub proof fn lemma_scan_reads_only_application_sources(
    root: Seq<char>,
    root_is_dir: bool,
    includes: Seq<Seq<char>>,
    manifest: (Seq<ScopeEntryView>, Seq<char>, bool),
    first: Seq<SourceFileView>,
    second: Seq<SourceFileView>,
)
    requires
        same_application_sources(manifest.0, first, second),
    ensures
        scan_report(root, root_is_dir, includes, Some(manifest), first) == scan_report(
            root,
            root_is_dir,
            includes,
            Some(manifest),
            second,
        ),
{
    lemma_scan_files_application_only(manifest.0, includes, first, second);
}

/// A scan without a manifest is the scan with scope given no manifest: both report what
/// `scope_scan_result` gives for no manifest, and two scans of the same inputs agree.
pub proof fn lemma_scan_is_scan_with_scope_without_manifest(
    root: Seq<char>,
    root_is_dir: bool,
    includes: Seq<Seq<char>>,
    targets: Seq<IncludeTargetView>,
    files: Seq<SourceFileView>,
)
    ensures
        scope_scan_result(
            root,
            root_is_dir,
            includes,
            targets,
            manifest_view(None::<&ScopeManifest>),
            files,
        ) == scope_scan_result(root, root_is_dir, includes, targets, None, files),
{
}

// ---------------------------------------------------------------- normalizing twice

/// A path with no whitespace and no `\`.
pub open spec fn is_plain_path(x: Seq<char>) -> bool {
    forall|k: int| 0 <= k < x.len() ==> !is_ws(#[trigger] x[k]) && x[k] != '\\'
}

proof fn lemma_end_without_stops(s: Seq<char>, c: char, i: int)
    requires
        0 <= i <= s.len(),
    ensures
        0 <= end_without(s, c, i) <= i,
        end_without(s, c, i) == 0 || s[end_without(s, c, i) - 1] != c,
    decreases i,
{
    if i > 0 && s[i - 1] == c {
        lemma_end_without_stops(s, c, i - 1);
    }
}

/// Normalizing a plain path gives a plain path that normalizing leaves as it is.
proof fn lemma_normalized_plain(x: Seq<char>)
    requires
        is_plain_path(x),
    ensures
        is_plain_path(normalized_include(x)),
        normalized_include(normalized_include(x)) == normalized_include(x),
{
    assert(trim(x) =~= x) by {
        if x.len() > 0 {
            assert(skip_ws(x, 0) == 0);
            assert(end_ws(x, x.len() as int) == x.len());
        }
    }
    let e = end_without(x, '/', x.len() as int);
    lemma_end_without_stops(x, '/', x.len() as int);
    let t = trim_end_char(x, '/');
    assert(t =~= x.take(e));
    assert(replace_char(t, '\\', '/') =~= t);
    assert(normalized_include(x) == t);
    assert(is_plain_path(t)) by {
        assert forall|k: int| 0 <= k < t.len() implies !is_ws(#[trigger] t[k]) && t[k] != '\\' by {
            assert(t[k] == x[k]);
        }
    }
    assert(trim(t) =~= t) by {
        if t.len() > 0 {
            assert(skip_ws(t, 0) == 0);
            assert(end_ws(t, t.len() as int) == t.len());
        }
    }
    assert(end_without(t, '/', t.len() as int) == t.len()) by {
        if t.len() > 0 {
            assert(t[t.len() - 1] == x[e - 1]);
        }
    }
    assert(trim_end_char(t, '/') =~= t);
    assert(replace_char(t, '\\', '/') =~= t);
}

proof fn lemma_first_invalid_none(raw: Seq<Seq<char>>, i: int, k: int)
    requires
        0 <= i <= k < raw.len(),
        first_invalid_include(raw, i) is None,
    ensures
        is_acceptable_include(normalized_include(raw[k])),
    decreases k - i,
{
    if i < k {
        lemma_first_invalid_none(raw, i + 1, k);
    }
}

proof fn lemma_all_acceptable(raw: Seq<Seq<char>>, i: int)
    requires
        0 <= i <= raw.len(),
        forall|k: int| i <= k < raw.len() ==> is_acceptable_include(normalized_include(#[trigger] raw[k])),
    ensures
        first_invalid_include(raw, i) is None,
    decreases raw.len() - i,
{
    if i < raw.len() {
        lemma_all_acceptable(raw, i + 1);
    }
}

proof fn lemma_insert_members(sorted: Seq<Seq<char>>, x: Seq<char>)
    ensures
        forall|j: int|
            0 <= j < insert_in_order::<String>(sorted, x).len() ==> #[trigger] insert_in_order::<
                String,
            >(sorted, x)[j] == x || sorted.contains(insert_in_order::<String>(sorted, x)[j]),
        insert_in_order::<String>(sorted, x).len() == sorted.len() + 1,
    decreases sorted.len(),
{
    let r = insert_in_order::<String>(sorted, x);
    if sorted.len() > 0 && text_lt(x, sorted.last()) {
        let shorter = sorted.drop_last();
        lemma_insert_members(shorter, x);
        assert forall|j: int| 0 <= j < r.len() implies #[trigger] r[j] == x || sorted.contains(r[j]) by {
            if j < r.len() - 1 {
                let y = insert_in_order::<String>(shorter, x)[j];
                if y != x {
                    let w = choose|w: int| 0 <= w < shorter.len() && shorter[w] == y;
                    assert(sorted[w] == y);
                }
            } else {
                assert(sorted[sorted.len() - 1] == r[j]);
            }
        }
    } else if sorted.len() > 0 {
        assert forall|j: int| 0 <= j < r.len() implies #[trigger] r[j] == x || sorted.contains(r[j]) by {
            if j < sorted.len() {
                assert(sorted[j] == r[j]);
            }
        }
    }
}

proof fn lemma_sort_members(items: Seq<Seq<char>>)
    ensures
        sort_in_order::<String>(items).len() == items.len(),
        forall|j: int|
            0 <= j < sort_in_order::<String>(items).len() ==> items.contains(
                #[trigger] sort_in_order::<String>(items)[j],
            ),
    decreases items.len(),
{
    if items.len() > 0 {
        let rest = items.drop_last();
        lemma_sort_members(rest);
        let sorted = sort_in_order::<String>(rest);
        lemma_insert_members(sorted, items.last());
        let r = sort_in_order::<String>(items);
        assert forall|j: int| 0 <= j < r.len() implies items.contains(#[trigger] r[j]) by {
            if r[j] == items.last() {
                assert(items[items.len() - 1] == r[j]);
            } else {
                let w = choose|w: int| 0 <= w < sorted.len() && sorted[w] == r[j];
                let v = choose|v: int| 0 <= v < rest.len() && rest[v] == sorted[w];
                assert(items[v] == rest[v]);
            }
        }
    }
}

proof fn lemma_dedup_members(items: Seq<Seq<char>>)
    ensures
        forall|j: int|
            0 <= j < dedup_adjacent(items).len() ==> items.contains(
                #[trigger] dedup_adjacent(items)[j],
            ),
    decreases items.len(),
{
    if items.len() > 1 {
        let rest = items.drop_last();
        lemma_dedup_members(rest);
        let r = dedup_adjacent(items);
        assert forall|j: int| 0 <= j < r.len() implies items.contains(#[trigger] r[j]) by {
            if j < dedup_adjacent(rest).len() {
                let v = choose|v: int| 0 <= v < rest.len() && rest[v] == dedup_adjacent(rest)[j];
                assert(items[v] == rest[v]);
            } else {
                assert(items[items.len() - 1] == r[j]);
            }
        }
    } else {
        assert forall|j: int| 0 <= j < dedup_adjacent(items).len() implies items.contains(
            #[trigger] dedup_adjacent(items)[j],
        ) by {
            assert(items[j] == dedup_adjacent(items)[j]);
        }
    }
}

proof fn lemma_sort_increasing_unchanged(items: Seq<Seq<char>>)
    requires
        is_strictly_increasing(items),
    ensures
        sort_in_order::<String>(items) == items,
        dedup_adjacent(items) == items,
    decreases items.len(),
{
    if items.len() > 0 {
        let rest = items.drop_last();
        assert(is_strictly_increasing(rest)) by {
            assert forall|i: int, j: int| 0 <= i < j < rest.len() implies text_lt(
                #[trigger] rest[i],
                #[trigger] rest[j],
            ) by {
                assert(rest[i] == items[i] && rest[j] == items[j]);
            }
        }
        lemma_sort_increasing_unchanged(rest);
        if rest.len() > 0 {
            assert(text_lt(items[items.len() - 2], items[items.len() - 1]));
            lemma_text_lt_asymmetric(items[items.len() - 2], items[items.len() - 1], 0);
            lemma_text_lt_irreflexive(items[items.len() - 1], 0);
            assert(rest.last() == items[items.len() - 2]);
        }
        assert(rest.push(items.last()) =~= items);
    }
}

/// Normalizing includes twice gives what normalizing them once gave, when no include holds
/// whitespace or `\`.
pub proof fn lemma_normalize_includes_idempotent(raw: Seq<Seq<char>>)
    requires
        forall|i: int| 0 <= i < raw.len() ==> is_plain_path(#[trigger] raw[i]),
        includes_result(raw) is Ok,
    ensures
        includes_result(includes_result(raw)->Ok_0) == includes_result(raw),
{
    let mapped = Seq::new(raw.len(), |i: int| normalized_include(raw[i]));
    let sorted = sort_in_order::<String>(mapped);
    let v = dedup_adjacent(sorted);
    assert(includes_result(raw) == Ok::<Seq<Seq<char>>, Seq<char>>(v));
    lemma_sort_members(mapped);
    lemma_dedup_members(sorted);
    assert forall|j: int| 0 <= j < v.len() implies normalized_include(#[trigger] v[j]) == v[j]
        && is_acceptable_include(normalized_include(v[j])) by {
        let s = choose|s: int| 0 <= s < sorted.len() && sorted[s] == v[j];
        let i = choose|i: int| 0 <= i < mapped.len() && mapped[i] == sorted[s];
        lemma_normalized_plain(raw[i]);
        lemma_first_invalid_none(raw, 0, i);
    }
    lemma_all_acceptable(v, 0);
    let again = Seq::new(v.len(), |i: int| normalized_include(v[i]));
    assert(again =~= v);
    lemma_includes_sorted_without_duplicates(raw);
    lemma_sort_increasing_unchanged(v);
}

} // verus!
