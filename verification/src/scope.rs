//! Source-role manifests: which repository paths hold application, framework, test,
//! generated, or excluded sources.
use vstd::prelude::*;

use crate::digest::{blake3_digest, blake3_hex};
use crate::order::{
    dedup_adjacent, dedup_items, is_strict_total_order, lemma_dedup_strict, lemma_sort_sorted,
    lemma_strictly_sorted_unique, sort_in_order, sort_stable, Distinguished, Ordered,
};
use crate::text::{
    append_str, contains_sub, find_sub_exec, occurs_at, occurs_at_exec, replace_char,
    replaced, starts_with, starts_with_exec, string_from, text_equal, text_less, text_lt, to_chars,
    trim, trim_end_char, trimmed, trimmed_end_char, lemma_text_lt_irreflexive, lemma_text_lt_total,
    lemma_text_lt_transitive,
};
use vstd::utf8::encode_utf8;

verus! {

pub const SCOPE_SCHEMA_VERSION: u32 = 1;

#[derive(Clone, Copy, Debug, PartialEq, Eq, Structural)]
pub enum SourceRole {
    Application,
    Framework,
    Test,
    Generated,
    Excluded,
}

impl SourceRole {
    /// Position in declaration order, which orders roles.
    pub open spec fn rank(self) -> nat {
        match self {
            SourceRole::Application => 0,
            SourceRole::Framework => 1,
            SourceRole::Test => 2,
            SourceRole::Generated => 3,
            SourceRole::Excluded => 4,
        }
    }

    pub open spec fn label_text(self) -> Seq<char> {
        match self {
            SourceRole::Application => "application"@,
            SourceRole::Framework => "framework"@,
            SourceRole::Test => "test"@,
            SourceRole::Generated => "generated"@,
            SourceRole::Excluded => "excluded"@,
        }
    }

    pub fn label(self) -> (r: &'static str)
        ensures
            r@ == self.label_text(),
    {
        match self {
            SourceRole::Application => "application",
            SourceRole::Framework => "framework",
            SourceRole::Test => "test",
            SourceRole::Generated => "generated",
            SourceRole::Excluded => "excluded",
        }
    }

    fn rank_of(self) -> (r: u8)
        ensures
            r == self.rank(),
    {
        match self {
            SourceRole::Application => 0,
            SourceRole::Framework => 1,
            SourceRole::Test => 2,
            SourceRole::Generated => 3,
            SourceRole::Excluded => 4,
        }
    }
}

/// One `[[source_sets]]` table of a manifest.
#[derive(Clone, Debug)]
pub struct SourceSet {
    pub role: SourceRole,
    pub paths: Vec<String>,
    pub reason: Option<String>,
}

pub struct SourceSetView {
    pub role: SourceRole,
    pub paths: Seq<Seq<char>>,
    pub reason: Option<Seq<char>>,
}

impl View for SourceSet {
    type V = SourceSetView;

    open spec fn view(&self) -> SourceSetView {
        SourceSetView {
            role: self.role,
            paths: self.paths.deep_view(),
            reason: self.reason.deep_view(),
        }
    }
}

impl DeepView for SourceSet {
    type V = SourceSetView;

    open spec fn deep_view(&self) -> SourceSetView {
        self@
    }
}

/// A manifest document as read from TOML.
#[derive(Clone, Debug)]
pub struct ScopeDocument {
    pub schema_version: u32,
    pub source_sets: Vec<SourceSet>,
    /// The `[liveness] closed_world` setting: the application sources are the whole owning
    /// package, so nothing outside them can use a private declaration.
    pub closed_world: bool,
}

/// One path of a manifest with its role and, when given, its reason.
#[derive(Clone, Debug)]
pub struct ScopeEntry {
    pub path: String,
    pub role: SourceRole,
    pub reason: Option<String>,
}

pub struct ScopeEntryView {
    pub path: Seq<char>,
    pub role: SourceRole,
    pub reason: Option<Seq<char>>,
}

impl View for ScopeEntry {
    type V = ScopeEntryView;

    open spec fn view(&self) -> ScopeEntryView {
        ScopeEntryView { path: self.path@, role: self.role, reason: self.reason.deep_view() }
    }
}

impl DeepView for ScopeEntry {
    type V = ScopeEntryView;

    open spec fn deep_view(&self) -> ScopeEntryView {
        self@
    }
}

/// `None` before any text; texts in text order.
pub open spec fn reason_lt(a: Option<Seq<char>>, b: Option<Seq<char>>) -> bool {
    match (a, b) {
        (None, Some(_)) => true,
        (Some(x), Some(y)) => text_lt(x, y),
        _ => false,
    }
}

/// Entries are ordered by path, then role, then reason.
pub open spec fn entry_lt(a: ScopeEntryView, b: ScopeEntryView) -> bool {
    ||| text_lt(a.path, b.path)
    ||| a.path == b.path && a.role.rank() < b.role.rank()
    ||| a.path == b.path && a.role == b.role && reason_lt(a.reason, b.reason)
}

fn reason_less(a: &Option<String>, b: &Option<String>) -> (r: bool)
    ensures
        r == reason_lt(a.deep_view(), b.deep_view()),
{
    match (a, b) {
        (None, Some(_)) => true,
        (Some(x), Some(y)) => text_less(x.as_str(), y.as_str()),
        _ => false,
    }
}

fn reason_equal(a: &Option<String>, b: &Option<String>) -> (r: bool)
    ensures
        r == (a.deep_view() == b.deep_view()),
{
    match (a, b) {
        (None, None) => true,
        (Some(x), Some(y)) => text_equal(x.as_str(), y.as_str()),
        _ => false,
    }
}

impl Ordered for ScopeEntry {
    open spec fn precedes(a: ScopeEntryView, b: ScopeEntryView) -> bool {
        entry_lt(a, b)
    }

    fn comes_before(&self, other: &Self) -> (r: bool) {
        if text_less(self.path.as_str(), other.path.as_str()) {
            return true;
        }
        if !text_equal(self.path.as_str(), other.path.as_str()) {
            return false;
        }
        let mine = self.role.rank_of();
        let theirs = other.role.rank_of();
        if mine < theirs {
            return true;
        }
        if mine != theirs {
            return false;
        }
        reason_less(&self.reason, &other.reason)
    }
}

impl Distinguished for ScopeEntry {
    fn same_as(&self, other: &Self) -> (r: bool) {
        text_equal(self.path.as_str(), other.path.as_str()) && self.role == other.role
            && reason_equal(&self.reason, &other.reason)
    }
}

#[derive(Clone, Debug)]
pub enum ScopeError {
    UnsupportedSchemaVersion(u32),
    EmptySourceSet,
    EmptyReason,
    ExcludedWithoutReason,
    EmptyPath,
    NotRepositoryRelative(String),
    NoApplicationSet,
    ConflictingReasons,
}

pub enum ScopeErrorView {
    UnsupportedSchemaVersion(u32),
    EmptySourceSet,
    EmptyReason,
    ExcludedWithoutReason,
    EmptyPath,
    NotRepositoryRelative(Seq<char>),
    NoApplicationSet,
    ConflictingReasons,
}

impl View for ScopeError {
    type V = ScopeErrorView;

    open spec fn view(&self) -> ScopeErrorView {
        match self {
            ScopeError::UnsupportedSchemaVersion(v) => ScopeErrorView::UnsupportedSchemaVersion(*v),
            ScopeError::EmptySourceSet => ScopeErrorView::EmptySourceSet,
            ScopeError::EmptyReason => ScopeErrorView::EmptyReason,
            ScopeError::ExcludedWithoutReason => ScopeErrorView::ExcludedWithoutReason,
            ScopeError::EmptyPath => ScopeErrorView::EmptyPath,
            ScopeError::NotRepositoryRelative(path) => ScopeErrorView::NotRepositoryRelative(
                path@,
            ),
            ScopeError::NoApplicationSet => ScopeErrorView::NoApplicationSet,
            ScopeError::ConflictingReasons => ScopeErrorView::ConflictingReasons,
        }
    }
}

/// The message that a user reads for each manifest error.
pub open spec fn scope_error_message(error: ScopeErrorView) -> Seq<char> {
    match error {
        ScopeErrorView::UnsupportedSchemaVersion(version) =>
            "unsupported scope manifest schema version "@ + crate::text::decimal(version as nat),
        ScopeErrorView::EmptySourceSet => "source set has no paths"@,
        ScopeErrorView::EmptyReason => "source set reason cannot be empty"@,
        ScopeErrorView::ExcludedWithoutReason => "excluded source set requires a reason"@,
        ScopeErrorView::EmptyPath => "source path cannot be empty"@,
        ScopeErrorView::NotRepositoryRelative(path) => "source path must be repository-relative: "@
            + path,
        ScopeErrorView::NoApplicationSet => "scope manifest needs an application source set"@,
        ScopeErrorView::ConflictingReasons => "same source path and role have conflicting reasons"@,
    }
}

impl ScopeError {
    /// The message that a user reads.
    pub fn message(&self) -> (r: String)
        ensures
            r@ == scope_error_message(self@),
    {
        let mut text: Vec<char> = Vec::new();
        match self {
            ScopeError::UnsupportedSchemaVersion(version) => {
                append_str(&mut text, "unsupported scope manifest schema version ");
                crate::text::append_decimal(&mut text, *version as usize);
            },
            ScopeError::EmptySourceSet => append_str(&mut text, "source set has no paths"),
            ScopeError::EmptyReason => append_str(&mut text, "source set reason cannot be empty"),
            ScopeError::ExcludedWithoutReason => append_str(
                &mut text,
                "excluded source set requires a reason",
            ),
            ScopeError::EmptyPath => append_str(&mut text, "source path cannot be empty"),
            ScopeError::NotRepositoryRelative(path) => {
                append_str(&mut text, "source path must be repository-relative: ");
                append_str(&mut text, path.as_str());
            },
            ScopeError::NoApplicationSet => append_str(
                &mut text,
                "scope manifest needs an application source set",
            ),
            ScopeError::ConflictingReasons => append_str(
                &mut text,
                "same source path and role have conflicting reasons",
            ),
        }
        string_from(text.as_slice())
    }
}

// ---------------------------------------------------------------- source paths

/// Trimmed, with `\` read as `/`, and trailing `/` removed.
pub open spec fn normalized_source_path(raw: Seq<char>) -> Seq<char> {
    trim_end_char(replace_char(trim(raw), '\\', '/'), '/')
}

/// A `..` component: `..` between separators or text ends.
pub open spec fn has_parent_component(path: Seq<char>) -> bool {
    exists|i: int|
        occurs_at(path, ".."@, i) && (i == 0 || path[i - 1] == '/') && (i + 2 == path.len()
            || path[i + 2] == '/')
}

/// A `.` first component, which `Path::components` keeps as `CurDir`.
pub open spec fn has_current_component(path: Seq<char>) -> bool {
    path == "."@ || starts_with(path, "./"@)
}

/// Relative, with only normal components and no empty one.
pub open spec fn is_repository_relative(path: Seq<char>) -> bool {
    &&& !contains_sub(path, "//"@)
    &&& !starts_with(path, "/"@)
    &&& !has_current_component(path)
    &&& !has_parent_component(path)
}

pub open spec fn source_path_result(raw: Seq<char>) -> Result<Seq<char>, ScopeErrorView> {
    let path = normalized_source_path(raw);
    if path.len() == 0 {
        Err(ScopeErrorView::EmptyPath)
    } else if path == "."@ {
        Ok(path)
    } else if !is_repository_relative(path) {
        Err(ScopeErrorView::NotRepositoryRelative(path))
    } else {
        Ok(path)
    }
}

proof fn lemma_dots()
    ensures
        ".."@ == seq!['.', '.'],
        "."@ == seq!['.'],
        "./"@ == seq!['.', '/'],
        "/"@ == seq!['/'],
        "//"@ == seq!['/', '/'],
{
    reveal_strlit("..");
    reveal_strlit(".");
    reveal_strlit("./");
    reveal_strlit("/");
    reveal_strlit("//");
}

/// Whether `path` holds a `..` component.
pub fn parent_component(path: &[char]) -> (r: bool)
    ensures
        r == has_parent_component(path@),
{
    let dots = to_chars("..");
    proof {
        lemma_dots();
    }
    let mut i: usize = 0;
    while i < path.len()
        invariant
            i <= path@.len(),
            dots@ == ".."@,
            ".."@.len() == 2,
            forall|j: int|
                0 <= j < i ==> !(occurs_at(path@, ".."@, j) && (j == 0 || path@[j - 1] == '/')
                    && (j + 2 == path@.len() || path@[j + 2] == '/')),
        decreases path@.len() - i,
    {
        if occurs_at_exec(path, dots.as_slice(), i) && (i == 0 || path[i - 1] == '/') && (i + 2
            == path.len() || path[i + 2] == '/') {
            return true;
        }
        i = i + 1;
    }
    assert forall|j: int|
        #![auto]
        occurs_at(path@, ".."@, j) implies !((j == 0 || path@[j - 1] == '/') && (j + 2
        == path@.len() || path@[j + 2] == '/')) by {
        lemma_dots();
        assert(j < path@.len());
    }
    false
}

pub fn repository_relative(path: &[char]) -> (r: bool)
    ensures
        r == is_repository_relative(path@),
{
    let double = to_chars("//");
    let slash = to_chars("/");
    let dot = to_chars(".");
    let dot_slash = to_chars("./");
    let doubled = find_sub_exec(path, double.as_slice(), 0).is_some();
    !doubled && !starts_with_exec(path, slash.as_slice()) && !(crate::text::equal_chars(
        path,
        dot.as_slice(),
    ) || starts_with_exec(path, dot_slash.as_slice())) && !parent_component(path)
}

/// `normalize_path`: a manifest path in canonical form, or why it is not acceptable.
pub fn normalize_path(raw: &str) -> (r: Result<String, ScopeError>)
    ensures
        match (r, source_path_result(raw@)) {
            (Ok(path), Ok(expected)) => path@ == expected,
            (Err(error), Err(expected)) => error@ == expected,
            _ => false,
        },
{
    let chars = to_chars(raw);
    let inner = trimmed(chars.as_slice());
    let converted = replaced(inner.as_slice(), '\\', '/');
    let path = trimmed_end_char(converted.as_slice(), '/');
    if path.len() == 0 {
        return Err(ScopeError::EmptyPath);
    }
    if crate::text::is_text(path.as_slice(), ".") {
        return Ok(string_from(path.as_slice()));
    }
    if !repository_relative(path.as_slice()) {
        return Err(ScopeError::NotRepositoryRelative(string_from(path.as_slice())));
    }
    Ok(string_from(path.as_slice()))
}

// ---------------------------------------------------------------- manifests

pub open spec fn trimmed_reason(reason: Option<Seq<char>>) -> Option<Seq<char>> {
    match reason {
        Some(text) => Some(trim(text)),
        None => None,
    }
}

/// The first path of `paths` from `i` on that is not acceptable, and why.
pub open spec fn first_path_error(paths: Seq<Seq<char>>, i: int) -> Option<ScopeErrorView>
    decreases paths.len() - i,
{
    if i < 0 || i >= paths.len() {
        None
    } else {
        match source_path_result(paths[i]) {
            Err(error) => Some(error),
            Ok(_) => first_path_error(paths, i + 1),
        }
    }
}

/// The first problem of a source set, in the order the manifest reader checks them.
pub open spec fn set_error(set: SourceSetView) -> Option<ScopeErrorView> {
    let reason = trimmed_reason(set.reason);
    if set.paths.len() == 0 {
        Some(ScopeErrorView::EmptySourceSet)
    } else if reason matches Some(text) && text.len() == 0 {
        Some(ScopeErrorView::EmptyReason)
    } else if set.role == SourceRole::Excluded && reason is None {
        Some(ScopeErrorView::ExcludedWithoutReason)
    } else {
        first_path_error(set.paths, 0)
    }
}

pub open spec fn first_set_error(sets: Seq<SourceSetView>, i: int) -> Option<ScopeErrorView>
    decreases sets.len() - i,
{
    if i < 0 || i >= sets.len() {
        None
    } else {
        match set_error(sets[i]) {
            Some(error) => Some(error),
            None => first_set_error(sets, i + 1),
        }
    }
}

/// The entries that one source set contributes, one per path.
pub open spec fn set_entries(set: SourceSetView) -> Seq<ScopeEntryView> {
    Seq::new(
        set.paths.len(),
        |i: int|
            ScopeEntryView {
                path: normalized_source_path(set.paths[i]),
                role: set.role,
                reason: trimmed_reason(set.reason),
            },
    )
}

pub open spec fn document_entries(sets: Seq<SourceSetView>) -> Seq<ScopeEntryView>
    decreases sets.len(),
{
    if sets.len() == 0 {
        Seq::empty()
    } else {
        document_entries(sets.drop_last()) + set_entries(sets.last())
    }
}

pub open spec fn has_application(entries: Seq<ScopeEntryView>) -> bool {
    exists|i: int| 0 <= i < entries.len() && (#[trigger] entries[i]).role == SourceRole::Application
}

/// Two neighbouring entries give one path and role different reasons.
pub open spec fn has_conflicting_reasons(entries: Seq<ScopeEntryView>) -> bool {
    exists|i: int|
        0 <= i && i + 1 < entries.len() && (#[trigger] entries[i]).path == entries[i + 1].path
            && entries[i].role == entries[i + 1].role && entries[i].reason != entries[i + 1].reason
}

/// The sorted, duplicate-free entries of a manifest.
pub open spec fn canonical_entries(sets: Seq<SourceSetView>) -> Seq<ScopeEntryView> {
    dedup_adjacent(sort_in_order::<ScopeEntry>(document_entries(sets)))
}

/// What reading a manifest document gives: its canonical entries, or the first problem.
pub open spec fn manifest_result(schema_version: u32, sets: Seq<SourceSetView>) -> Result<
    Seq<ScopeEntryView>,
    ScopeErrorView,
> {
    if schema_version != SCOPE_SCHEMA_VERSION {
        Err(ScopeErrorView::UnsupportedSchemaVersion(schema_version))
    } else {
        match first_set_error(sets, 0) {
            Some(error) => Err(error),
            None => if !has_application(document_entries(sets)) {
                Err(ScopeErrorView::NoApplicationSet)
            } else if has_conflicting_reasons(canonical_entries(sets)) {
                Err(ScopeErrorView::ConflictingReasons)
            } else {
                Ok(canonical_entries(sets))
            },
        }
    }
}

pub open spec fn reason_text(reason: Option<Seq<char>>) -> Seq<char> {
    match reason {
        Some(text) => text,
        None => Seq::empty(),
    }
}

/// The bytes hashed for the entries: path, role label and reason, each followed by a zero byte.
pub open spec fn entries_digest_input(entries: Seq<ScopeEntryView>) -> Seq<u8>
    decreases entries.len(),
{
    if entries.len() == 0 {
        Seq::empty()
    } else {
        let entry = entries.last();
        entries_digest_input(entries.drop_last()) + encode_utf8(entry.path) + seq![0u8]
            + encode_utf8(entry.role.label_text()) + seq![0u8] + encode_utf8(
            reason_text(entry.reason),
        ) + seq![0u8]
    }
}

/// The schema version as four little-endian bytes, then the entries.
pub open spec fn manifest_digest_input(entries: Seq<ScopeEntryView>) -> Seq<u8> {
    seq![1u8, 0u8, 0u8, 0u8] + entries_digest_input(entries)
}

pub struct ScopeManifest {
    pub entries: Vec<ScopeEntry>,
    pub digest: String,
    pub closed_world: bool,
}

/// Whether a manifest entry with path `prefix` covers the source `path`.
pub open spec fn covers(prefix: Seq<char>, path: Seq<char>) -> bool {
    prefix == "."@ || path == prefix || starts_with(path, prefix + seq!['/'])
}

/// The longer the prefix (in UTF-8 bytes), the more specific; `.` is the least.
pub open spec fn specificity(prefix: Seq<char>) -> nat {
    if prefix == "."@ {
        0
    } else {
        encode_utf8(prefix).len()
    }
}

/// The role that entries from `i` on assign to `path`, given the role selected so far, its
/// specificity, and whether an equally specific entry with another role was met: a more
/// specific covering entry replaces the selection and clears the conflict, and an equally
/// specific one with another role marks a conflict.
pub open spec fn role_search(
    entries: Seq<ScopeEntryView>,
    path: Seq<char>,
    i: int,
    selected: Option<SourceRole>,
    best: nat,
    conflict: bool,
) -> Result<SourceRole, Seq<char>>
    decreases entries.len() - i,
{
    if i < 0 || i >= entries.len() {
        match selected {
            Some(role) => if conflict {
                Err("conflicting source roles at the same path"@)
            } else {
                Ok(role)
            },
            None => Err("source file has no role in scope manifest"@),
        }
    } else {
        let entry = entries[i];
        if !covers(entry.path, path) {
            role_search(entries, path, i + 1, selected, best, conflict)
        } else if selected is None || specificity(entry.path) > best {
            role_search(entries, path, i + 1, Some(entry.role), specificity(entry.path), false)
        } else if specificity(entry.path) == best && selected != Some(entry.role) {
            role_search(entries, path, i + 1, selected, best, true)
        } else {
            role_search(entries, path, i + 1, selected, best, conflict)
        }
    }
}

pub open spec fn role_result(entries: Seq<ScopeEntryView>, path: Seq<char>) -> Result<
    SourceRole,
    Seq<char>,
> {
    role_search(entries, path, 0, None, 0, false)
}

fn trim_reason(reason: &Option<String>) -> (r: Option<String>)
    ensures
        r.deep_view() == trimmed_reason(reason.deep_view()),
{
    match reason {
        Some(text) => {
            let chars = to_chars(text.as_str());
            let inner = trimmed(chars.as_slice());
            Some(string_from(inner.as_slice()))
        },
        None => None,
    }
}

fn copy_reason(reason: &Option<String>) -> (r: Option<String>)
    ensures
        r.deep_view() == reason.deep_view(),
{
    match reason {
        Some(text) => Some(text.clone()),
        None => None,
    }
}

fn append_bytes(target: &mut Vec<u8>, bytes: &[u8])
    ensures
        final(target)@ == old(target)@ + bytes@,
{
    let mut i: usize = 0;
    while i < bytes.len()
        invariant
            i <= bytes@.len(),
            target@ == old(target)@ + bytes@.take(i as int),
        decreases bytes@.len() - i,
    {
        assert(bytes@.take(i + 1) == bytes@.take(i as int).push(bytes@[i as int]));
        target.push(bytes[i]);
        i = i + 1;
    }
    assert(bytes@.take(bytes@.len() as int) == bytes@);
}

fn manifest_digest(entries: &Vec<ScopeEntry>) -> (r: String)
    ensures
        r@ == blake3_hex(manifest_digest_input(entries.deep_view())),
{
    let mut input: Vec<u8> = Vec::new();
    input.push(1u8);
    input.push(0u8);
    input.push(0u8);
    input.push(0u8);
    let mut i: usize = 0;
    while i < entries.len()
        invariant
            i <= entries@.len(),
            input@ == seq![1u8, 0u8, 0u8, 0u8] + entries_digest_input(
                entries.deep_view().take(i as int),
            ),
        decreases entries@.len() - i,
    {
        let entry = &entries[i];
        let ghost before = input@;
        append_bytes(&mut input, entry.path.as_str().as_bytes());
        input.push(0u8);
        append_bytes(&mut input, entry.role.label().as_bytes());
        input.push(0u8);
        match &entry.reason {
            Some(reason) => append_bytes(&mut input, reason.as_str().as_bytes()),
            None => append_bytes(&mut input, "".as_bytes()),
        }
        input.push(0u8);
        proof {
            reveal_strlit("");
            let prefix = entries.deep_view().take(i + 1);
            assert(prefix.drop_last() =~= entries.deep_view().take(i as int));
            assert(prefix.last() == entry@);
            assert(input@ =~= seq![1u8, 0u8, 0u8, 0u8] + entries_digest_input(prefix));
        }
        i = i + 1;
    }
    assert(entries.deep_view().take(entries@.len() as int) =~= entries.deep_view());
    blake3_digest(input.as_slice())
}

fn application_listed(entries: &Vec<ScopeEntry>) -> (r: bool)
    ensures
        r == has_application(entries.deep_view()),
{
    let mut k: usize = 0;
    while k < entries.len()
        invariant
            k <= entries@.len(),
            forall|m: int|
                0 <= m < k ==> (#[trigger] entries.deep_view()[m]).role != SourceRole::Application,
        decreases entries@.len() - k,
    {
        assert(entries.deep_view()[k as int].role == entries@[k as int].role);
        if entries[k].role == SourceRole::Application {
            return true;
        }
        k = k + 1;
    }
    false
}

/// Neighbouring entries `q` and `q + 1` give one path and role different reasons.
pub open spec fn reasons_differ_at(entries: Seq<ScopeEntryView>, q: int) -> bool {
    entries[q].path == entries[q + 1].path && entries[q].role == entries[q + 1].role
        && entries[q].reason != entries[q + 1].reason
}

#[verifier::spinoff_prover]
fn reasons_conflict(entries: &Vec<ScopeEntry>) -> (r: bool)
    ensures
        r == has_conflicting_reasons(entries.deep_view()),
{
    let ghost view = entries.deep_view();
    let mut m: usize = 0;
    while entries.len() > 0 && m < entries.len() - 1
        invariant
            view == entries.deep_view(),
            forall|q: int| 0 <= q < m ==> !#[trigger] reasons_differ_at(view, q),
        decreases entries@.len() - m,
    {
        let first = &entries[m];
        let second = &entries[m + 1];
        assert(view[m as int] == first@ && view[m + 1] == second@);
        let differ = text_equal(first.path.as_str(), second.path.as_str()) && first.role
            == second.role && !reason_equal(&first.reason, &second.reason);
        assert(differ == reasons_differ_at(view, m as int));
        if differ {
            assert(has_conflicting_reasons(view)) by {
                assert(reasons_differ_at(view, m as int));
                assert(view[m as int].path == view[m + 1].path);
            }
            return true;
        }
        m = m + 1;
    }
    assert(!has_conflicting_reasons(view)) by {
        if has_conflicting_reasons(view) {
            let q = choose|q: int|
                0 <= q && q + 1 < view.len() && (#[trigger] view[q]).path == view[q + 1].path
                    && view[q].role == view[q + 1].role && view[q].reason != view[q + 1].reason;
            assert(reasons_differ_at(view, q));
        }
    }
    false
}

fn set_entries_into(set: &SourceSet, entries: &mut Vec<ScopeEntry>) -> (r: Result<(), ScopeError>)
    ensures
        match (r, set_error(set@)) {
            (Ok(()), None) => final(entries).deep_view() == old(entries).deep_view() + set_entries(
                set@,
            ),
            (Err(error), Some(expected)) => error@ == expected,
            _ => false,
        },
{
    if set.paths.len() == 0 {
        return Err(ScopeError::EmptySourceSet);
    }
    let reason = trim_reason(&set.reason);
    let empty_reason = match &reason {
        Some(text) => text.as_str().unicode_len() == 0,
        None => false,
    };
    if empty_reason {
        return Err(ScopeError::EmptyReason);
    }
    if set.role == SourceRole::Excluded && reason.is_none() {
        return Err(ScopeError::ExcludedWithoutReason);
    }
    let ghost before = entries.deep_view();
    let mut j: usize = 0;
    while j < set.paths.len()
        invariant
            j <= set@.paths.len(),
            set_error(set@) == first_path_error(set@.paths, 0),
            first_path_error(set@.paths, 0) == first_path_error(set@.paths, j as int),
            reason.deep_view() == trimmed_reason(set@.reason),
            entries.deep_view() == before + set_entries(set@).take(j as int),
        decreases set@.paths.len() - j,
    {
        assert(set@.paths[j as int] == set.paths@[j as int]@);
        match normalize_path(set.paths[j].as_str()) {
            Ok(path) => {
                let entry = ScopeEntry { path, role: set.role, reason: copy_reason(&reason) };
                let ghost waiting = entries.deep_view();
                entries.push(entry);
                assert(set_entries(set@).take(j + 1) =~= set_entries(set@).take(j as int).push(
                    entry@,
                ));
                assert(entries.deep_view() =~= waiting.push(entry@));
            },
            Err(error) => {
                return Err(error);
            },
        }
        j = j + 1;
    }
    assert(set_entries(set@).take(j as int) =~= set_entries(set@));
    Ok(())
}

fn document_entries_of(document: &ScopeDocument) -> (r: Result<Vec<ScopeEntry>, ScopeError>)
    ensures
        match (r, first_set_error(document.source_sets.deep_view(), 0)) {
            (Ok(entries), None) => entries.deep_view() == document_entries(
                document.source_sets.deep_view(),
            ),
            (Err(error), Some(expected)) => error@ == expected,
            _ => false,
        },
{
    let ghost sets = document.source_sets.deep_view();
    let mut entries: Vec<ScopeEntry> = Vec::new();
    let mut i: usize = 0;
    while i < document.source_sets.len()
        invariant
            i <= sets.len(),
            sets == document.source_sets.deep_view(),
            first_set_error(sets, 0) == first_set_error(sets, i as int),
            entries.deep_view() == document_entries(sets.take(i as int)),
        decreases sets.len() - i,
    {
        let set = &document.source_sets[i];
        assert(sets[i as int] == set@);
        set_entries_into(set, &mut entries)?;
        assert(sets.take(i + 1).drop_last() =~= sets.take(i as int));
        i = i + 1;
    }
    assert(sets.take(sets.len() as int) =~= sets);
    Ok(entries)
}

impl ScopeManifest {
    /// Reads a manifest document: checks it, canonicalizes its entries, and digests them.
    pub fn parse(document: &ScopeDocument) -> (r: Result<ScopeManifest, ScopeError>)
        ensures
            match (r, manifest_result(document.schema_version, document.source_sets.deep_view())) {
                (Ok(manifest), Ok(entries)) => manifest.entries.deep_view() == entries
                    && manifest.digest@ == blake3_hex(manifest_digest_input(entries))
                    && manifest.closed_world == document.closed_world,
                (Err(error), Err(expected)) => error@ == expected,
                _ => false,
            },
    {
        if document.schema_version != SCOPE_SCHEMA_VERSION {
            return Err(ScopeError::UnsupportedSchemaVersion(document.schema_version));
        }
        let entries = document_entries_of(document)?;
        if !application_listed(&entries) {
            return Err(ScopeError::NoApplicationSet);
        }
        let sorted = sort_stable(entries);
        let canonical = dedup_items(sorted);
        if reasons_conflict(&canonical) {
            return Err(ScopeError::ConflictingReasons);
        }
        let digest = manifest_digest(&canonical);
        Ok(ScopeManifest { entries: canonical, digest, closed_world: document.closed_world })
    }

    pub fn digest(&self) -> (r: &str)
        ensures
            r@ == self.digest@,
    {
        self.digest.as_str()
    }

    /// The role of the source at `path`: the role of the most specific covering entries, or an
    /// error where none covers it or where those entries disagree.
    pub fn role_for(&self, path: &str) -> (r: Result<SourceRole, String>)
        ensures
            match (r, role_result(self.entries.deep_view(), path@)) {
                (Ok(role), Ok(expected)) => role == expected,
                (Err(message), Err(expected)) => message@ == expected,
                _ => false,
            },
    {
        let path_chars = to_chars(path);
        let ghost entries = self.entries.deep_view();
        let mut selected: Option<SourceRole> = None;
        let mut best: usize = 0;
        let mut conflict = false;
        let mut i: usize = 0;
        while i < self.entries.len()
            invariant
                i <= entries.len(),
                entries == self.entries.deep_view(),
                path_chars@ == path@,
                role_result(entries, path@) == role_search(
                    entries,
                    path@,
                    i as int,
                    selected,
                    best as nat,
                    conflict,
                ),
            decreases entries.len() - i,
        {
            let entry = &self.entries[i];
            assert(entries[i as int] == entry@);
            let prefix = to_chars(entry.path.as_str());
            let everything = crate::text::is_text(prefix.as_slice(), ".");
            let mut with_separator = to_chars(entry.path.as_str());
            with_separator.push('/');
            assert(with_separator@ =~= entry@.path + seq!['/']);
            let covered = everything || crate::text::equal_chars(
                path_chars.as_slice(),
                prefix.as_slice(),
            ) || starts_with_exec(path_chars.as_slice(), with_separator.as_slice());
            assert(covered == covers(entry@.path, path@));
            if covered {
                let candidate = if everything {
                    0
                } else {
                    entry.path.as_str().as_bytes().len()
                };
                assert(candidate == specificity(entry@.path));
                if selected.is_none() || candidate > best {
                    selected = Some(entry.role);
                    best = candidate;
                    conflict = false;
                } else if candidate == best && selected != Some(entry.role) {
                    conflict = true;
                }
            }
            i = i + 1;
        }
        match selected {
            Some(role) => if conflict {
                Err("conflicting source roles at the same path".to_owned())
            } else {
                Ok(role)
            },
            None => Err("source file has no role in scope manifest".to_owned()),
        }
    }
}

/// Every entry that covers `path` as specifically as entry `k` gives it `k`'s role.
pub open spec fn roles_agree_at(entries: Seq<ScopeEntryView>, path: Seq<char>, k: int) -> bool {
    forall|j: int|
        0 <= j < entries.len() && covers(#[trigger] entries[j].path, path) && specificity(
            entries[j].path,
        ) == specificity(entries[k].path) ==> entries[j].role == entries[k].role
}

/// No entry covers `path` more specifically than entry `k`.
pub open spec fn most_specific(entries: Seq<ScopeEntryView>, path: Seq<char>, k: int) -> bool {
    forall|j: int|
        0 <= j < entries.len() && covers(#[trigger] entries[j].path, path) ==> specificity(
            entries[j].path,
        ) <= specificity(entries[k].path)
}

/// What the search has seen of the entries before `i`: the selection is the role of a covering
/// entry of the best specificity so far, and a conflict has a witness at that specificity.
pub open spec fn search_state(
    entries: Seq<ScopeEntryView>,
    path: Seq<char>,
    i: int,
    selected: Option<SourceRole>,
    best: nat,
    conflict: bool,
) -> bool {
    &&& 0 <= i <= entries.len()
    &&& selected is None ==> !conflict && forall|j: int|
        0 <= j < i ==> !covers(#[trigger] entries[j].path, path)
    &&& selected matches Some(role) ==> (exists|j: int|
        0 <= j < i && covers(#[trigger] entries[j].path, path) && specificity(entries[j].path)
            == best && entries[j].role == role)
    &&& selected is Some ==> forall|j: int|
        0 <= j < i && covers(#[trigger] entries[j].path, path) ==> specificity(entries[j].path)
            <= best
}

proof fn lemma_role_search_finds(
    entries: Seq<ScopeEntryView>,
    path: Seq<char>,
    i: int,
    selected: Option<SourceRole>,
    best: nat,
    conflict: bool,
    k: int,
)
    requires
        0 <= k < entries.len(),
        covers(entries[k].path, path),
        most_specific(entries, path, k),
        roles_agree_at(entries, path, k),
        search_state(entries, path, i, selected, best, conflict),
        conflict ==> (exists|j: int|
            0 <= j < i && covers(#[trigger] entries[j].path, path) && specificity(entries[j].path)
                == best && Some(entries[j].role) != selected),
    ensures
        role_search(entries, path, i, selected, best, conflict) == Ok::<SourceRole, Seq<char>>(
            entries[k].role,
        ),
    decreases entries.len() - i,
{
    if i == entries.len() {
        if selected is None {
            assert(!covers(entries[k].path, path));
        } else {
            let j = choose|j: int|
                0 <= j < i && covers(#[trigger] entries[j].path, path) && specificity(
                    entries[j].path,
                ) == best && entries[j].role == selected->0;
            assert(specificity(entries[k].path) <= best);
            assert(specificity(entries[j].path) <= specificity(entries[k].path));
            if conflict {
                let c = choose|c: int|
                    0 <= c < i && covers(#[trigger] entries[c].path, path) && specificity(
                        entries[c].path,
                    ) == best && Some(entries[c].role) != selected;
                assert(entries[c].role == entries[k].role);
            }
        }
    } else {
        let entry = entries[i];
        if !covers(entry.path, path) {
            lemma_role_search_finds(entries, path, i + 1, selected, best, conflict, k);
        } else if selected is None || specificity(entry.path) > best {
            assert(covers(entries[i].path, path));
            lemma_role_search_finds(
                entries,
                path,
                i + 1,
                Some(entry.role),
                specificity(entry.path),
                false,
                k,
            );
        } else if specificity(entry.path) == best && selected != Some(entry.role) {
            assert(covers(entries[i].path, path));
            lemma_role_search_finds(entries, path, i + 1, selected, best, true, k);
        } else {
            lemma_role_search_finds(entries, path, i + 1, selected, best, conflict, k);
        }
    }
}

/// The most specific entry that covers a path gives its role, provided the entries that cover
/// the path as specifically agree on the role; less specific entries do not matter.
pub proof fn lemma_most_specific_role_wins(entries: Seq<ScopeEntryView>, path: Seq<char>, k: int)
    requires
        0 <= k < entries.len(),
        covers(entries[k].path, path),
        most_specific(entries, path, k),
        roles_agree_at(entries, path, k),
    ensures
        role_result(entries, path) == Ok::<SourceRole, Seq<char>>(entries[k].role),
{
    lemma_role_search_finds(entries, path, 0, None, 0, false, k);
}

proof fn lemma_role_search_conflict(
    entries: Seq<ScopeEntryView>,
    path: Seq<char>,
    i: int,
    selected: Option<SourceRole>,
    best: nat,
    conflict: bool,
    a: int,
    b: int,
)
    requires
        0 <= a < entries.len(),
        0 <= b < entries.len(),
        covers(entries[a].path, path),
        covers(entries[b].path, path),
        most_specific(entries, path, a),
        specificity(entries[b].path) == specificity(entries[a].path),
        entries[a].role != entries[b].role,
        search_state(entries, path, i, selected, best, conflict),
        selected is Some && best == specificity(entries[a].path) && !conflict ==> forall|j: int|
            0 <= j < i && covers(#[trigger] entries[j].path, path) && specificity(entries[j].path)
                == best ==> Some(entries[j].role) == selected,
    ensures
        role_search(entries, path, i, selected, best, conflict) == Err::<SourceRole, Seq<char>>(
            "conflicting source roles at the same path"@,
        ),
    decreases entries.len() - i,
{
    let top = specificity(entries[a].path);
    if i == entries.len() {
        assert(selected is Some);
        let j = choose|j: int|
            0 <= j < i && covers(#[trigger] entries[j].path, path) && specificity(entries[j].path)
                == best && entries[j].role == selected->0;
        assert(specificity(entries[j].path) <= top);
        assert(specificity(entries[a].path) <= best);
        if !conflict {
            assert(Some(entries[a].role) == selected);
            assert(Some(entries[b].role) == selected);
        }
    } else {
        let entry = entries[i];
        assert(covers(entries[i].path, path) ==> specificity(entries[i].path) <= top);
        if !covers(entry.path, path) {
            lemma_role_search_conflict(entries, path, i + 1, selected, best, conflict, a, b);
        } else if selected is None || specificity(entry.path) > best {
            if selected is Some {
                let j = choose|j: int|
                    0 <= j < i && covers(#[trigger] entries[j].path, path) && specificity(
                        entries[j].path,
                    ) == best && entries[j].role == selected->0;
                assert(specificity(entries[j].path) <= top);
            }
            assert(covers(entries[i].path, path));
            lemma_role_search_conflict(
                entries,
                path,
                i + 1,
                Some(entry.role),
                specificity(entry.path),
                false,
                a,
                b,
            );
        } else if specificity(entry.path) == best && selected != Some(entry.role) {
            assert(covers(entries[i].path, path));
            lemma_role_search_conflict(entries, path, i + 1, selected, best, true, a, b);
        } else {
            lemma_role_search_conflict(entries, path, i + 1, selected, best, conflict, a, b);
        }
    }
}

/// Two entries that cover a path most specifically with different roles are a conflict,
/// whatever less specific entries say.
pub proof fn lemma_conflict_at_most_specific(
    entries: Seq<ScopeEntryView>,
    path: Seq<char>,
    a: int,
    b: int,
)
    requires
        0 <= a < entries.len(),
        0 <= b < entries.len(),
        covers(entries[a].path, path),
        covers(entries[b].path, path),
        most_specific(entries, path, a),
        specificity(entries[b].path) == specificity(entries[a].path),
        entries[a].role != entries[b].role,
    ensures
        role_result(entries, path) == Err::<SourceRole, Seq<char>>(
            "conflicting source roles at the same path"@,
        ),
{
    lemma_role_search_conflict(entries, path, 0, None, 0, false, a, b);
}

proof fn lemma_role_search_unassigned(
    entries: Seq<ScopeEntryView>,
    path: Seq<char>,
    i: int,
)
    requires
        0 <= i <= entries.len(),
        forall|j: int| 0 <= j < entries.len() ==> !covers(#[trigger] entries[j].path, path),
    ensures
        role_search(entries, path, i, None, 0, false) == Err::<SourceRole, Seq<char>>(
            "source file has no role in scope manifest"@,
        ),
    decreases entries.len() - i,
{
    if i < entries.len() {
        lemma_role_search_unassigned(entries, path, i + 1);
    }
}

/// A source that no entry covers has no role.
pub proof fn lemma_uncovered_source_has_no_role(entries: Seq<ScopeEntryView>, path: Seq<char>)
    requires
        forall|j: int| 0 <= j < entries.len() ==> !covers(#[trigger] entries[j].path, path),
    ensures
        role_result(entries, path) == Err::<SourceRole, Seq<char>>(
            "source file has no role in scope manifest"@,
        ),
{
    lemma_role_search_unassigned(entries, path, 0);
}

/// The digest identifies a manifest by its meaning: documents whose checked, canonical entries
/// agree get the same entries and the same digest, however their source sets were written.
pub proof fn lemma_digest_is_semantic(
    first: Seq<SourceSetView>,
    second: Seq<SourceSetView>,
)
    requires
        manifest_result(SCOPE_SCHEMA_VERSION, first) is Ok,
        manifest_result(SCOPE_SCHEMA_VERSION, second) is Ok,
        canonical_entries(first) == canonical_entries(second),
    ensures
        manifest_result(SCOPE_SCHEMA_VERSION, first) == manifest_result(
            SCOPE_SCHEMA_VERSION,
            second,
        ),
        blake3_hex(manifest_digest_input(canonical_entries(first))) == blake3_hex(
            manifest_digest_input(canonical_entries(second)),
        ),
{
}

// ---------------------------------------------------------------- the order of source sets

/// Entries are strictly and totally ordered by path, then role, then reason.
proof fn lemma_entry_order()
    ensures
        is_strict_total_order::<ScopeEntry>(),
{
    assert forall|a: ScopeEntryView| !#[trigger] ScopeEntry::precedes(a, a) by {
        lemma_text_lt_irreflexive(a.path, 0);
        if a.reason is Some {
            lemma_text_lt_irreflexive(a.reason->0, 0);
        }
    }
    assert forall|a: ScopeEntryView, b: ScopeEntryView, c: ScopeEntryView|
        #[trigger] ScopeEntry::precedes(a, b) && #[trigger] ScopeEntry::precedes(b, c) implies ScopeEntry::precedes(
        a,
        c,
    ) by {
        if text_lt(a.path, b.path) && text_lt(b.path, c.path) {
            lemma_text_lt_transitive(a.path, b.path, c.path, 0);
        }
        if a.reason is Some && b.reason is Some && c.reason is Some && text_lt(
            a.reason->0,
            b.reason->0,
        ) && text_lt(b.reason->0, c.reason->0) {
            lemma_text_lt_transitive(a.reason->0, b.reason->0, c.reason->0, 0);
        }
    }
    assert forall|a: ScopeEntryView, b: ScopeEntryView|
        a != b implies #[trigger] ScopeEntry::precedes(a, b) || ScopeEntry::precedes(b, a) by {
        if a.path != b.path {
            lemma_text_lt_total(a.path, b.path, 0);
        } else if a.role != b.role {
        } else if a.reason is Some && b.reason is Some {
            assert(a.reason->0 != b.reason->0);
            lemma_text_lt_total(a.reason->0, b.reason->0, 0);
        }
    }
}

proof fn lemma_document_entries_contains(sets: Seq<SourceSetView>, e: ScopeEntryView)
    ensures
        document_entries(sets).contains(e) <==> exists|i: int|
            0 <= i < sets.len() && #[trigger] set_entries(sets[i]).contains(e),
    decreases sets.len(),
{
    if sets.len() > 0 {
        let rest = sets.drop_last();
        let earlier = document_entries(rest);
        let last = set_entries(sets.last());
        lemma_document_entries_contains(rest, e);
        let all = document_entries(sets);
        assert(all == earlier + last);
        if all.contains(e) {
            let k = choose|k: int| 0 <= k < all.len() && all[k] == e;
            if k < earlier.len() {
                assert(earlier[k] == e);
                let i = choose|i: int| 0 <= i < rest.len() && #[trigger] set_entries(rest[i]).contains(e);
                assert(sets[i] == rest[i]);
            } else {
                assert(last[k - earlier.len()] == e);
                assert(set_entries(sets[sets.len() - 1]).contains(e));
            }
        }
        if exists|i: int| 0 <= i < sets.len() && #[trigger] set_entries(sets[i]).contains(e) {
            let i = choose|i: int| 0 <= i < sets.len() && #[trigger] set_entries(sets[i]).contains(e);
            if i < sets.len() - 1 {
                assert(rest[i] == sets[i]);
                assert(earlier.contains(e));
                let k = choose|k: int| 0 <= k < earlier.len() && earlier[k] == e;
                assert(all[k] == e);
            } else {
                let k = choose|k: int| 0 <= k < last.len() && last[k] == e;
                assert(all[earlier.len() + k] == e);
            }
        }
    }
}

proof fn lemma_same_document_entries(first: Seq<SourceSetView>, second: Seq<SourceSetView>)
    requires
        forall|s: SourceSetView| first.contains(s) <==> second.contains(s),
    ensures
        forall|e: ScopeEntryView|
            document_entries(first).contains(e) <==> document_entries(second).contains(e),
{
    assert forall|e: ScopeEntryView|
        document_entries(first).contains(e) implies document_entries(second).contains(e) by {
        lemma_document_entries_contains(first, e);
        lemma_document_entries_contains(second, e);
        let i = choose|i: int| 0 <= i < first.len() && #[trigger] set_entries(first[i]).contains(e);
        assert(first.contains(first[i]));
        let j = choose|j: int| 0 <= j < second.len() && second[j] == first[i];
        assert(set_entries(second[j]).contains(e));
    }
    assert forall|e: ScopeEntryView|
        document_entries(second).contains(e) implies document_entries(first).contains(e) by {
        lemma_document_entries_contains(first, e);
        lemma_document_entries_contains(second, e);
        let i = choose|i: int| 0 <= i < second.len() && #[trigger] set_entries(second[i]).contains(e);
        assert(second.contains(second[i]));
        let j = choose|j: int| 0 <= j < first.len() && first[j] == second[i];
        assert(set_entries(first[j]).contains(e));
    }
}

proof fn lemma_first_set_error_none(sets: Seq<SourceSetView>, i: int)
    requires
        0 <= i <= sets.len(),
    ensures
        first_set_error(sets, i) is None <==> forall|k: int|
            i <= k < sets.len() ==> set_error(#[trigger] sets[k]) is None,
    decreases sets.len() - i,
{
    if i < sets.len() {
        lemma_first_set_error_none(sets, i + 1);
    }
}

proof fn lemma_same_canonical_entries(first: Seq<SourceSetView>, second: Seq<SourceSetView>)
    requires
        forall|e: ScopeEntryView|
            document_entries(first).contains(e) <==> document_entries(second).contains(e),
    ensures
        canonical_entries(first) == canonical_entries(second),
{
    lemma_entry_order();
    let d1 = document_entries(first);
    let d2 = document_entries(second);
    lemma_sort_sorted::<ScopeEntry>(d1);
    lemma_sort_sorted::<ScopeEntry>(d2);
    lemma_dedup_strict::<ScopeEntry>(sort_in_order::<ScopeEntry>(d1));
    lemma_dedup_strict::<ScopeEntry>(sort_in_order::<ScopeEntry>(d2));
    let c1 = canonical_entries(first);
    let c2 = canonical_entries(second);
    assert forall|v: ScopeEntryView| c1.contains(v) <==> c2.contains(v) by {
        assert(c1.contains(v) <==> sort_in_order::<ScopeEntry>(d1).contains(v));
        assert(c2.contains(v) <==> sort_in_order::<ScopeEntry>(d2).contains(v));
        assert(d1.contains(v) <==> d2.contains(v));
    }
    lemma_strictly_sorted_unique::<ScopeEntry>(c1, c2);
}

proof fn lemma_same_acceptance(first: Seq<SourceSetView>, second: Seq<SourceSetView>)
    requires
        forall|s: SourceSetView| first.contains(s) <==> second.contains(s),
        forall|e: ScopeEntryView|
            document_entries(first).contains(e) <==> document_entries(second).contains(e),
        first_set_error(first, 0) is None,
        has_application(document_entries(first)),
    ensures
        first_set_error(second, 0) is None,
        has_application(document_entries(second)),
{
    let d1 = document_entries(first);
    let d2 = document_entries(second);
    lemma_first_set_error_none(first, 0);
    lemma_first_set_error_none(second, 0);
    assert forall|k: int| 0 <= k < second.len() implies set_error(#[trigger] second[k]) is None by {
        assert(second.contains(second[k]));
        let j = choose|j: int| 0 <= j < first.len() && first[j] == second[k];
    }
    let a = choose|a: int| 0 <= a < d1.len() && (#[trigger] d1[a]).role == SourceRole::Application;
    assert(d1.contains(d1[a]));
    let b = choose|b: int| 0 <= b < d2.len() && d2[b] == d1[a];
    assert(d2[b].role == SourceRole::Application);
}

/// The order in which a document lists its source sets does not matter: documents with the
/// same source sets have the same canonical entries and digest, and the same reading where
/// one of them is accepted.
pub proof fn lemma_source_set_order_is_irrelevant(
    first: Seq<SourceSetView>,
    second: Seq<SourceSetView>,
)
    requires
        forall|s: SourceSetView| first.contains(s) <==> second.contains(s),
    ensures
        canonical_entries(first) == canonical_entries(second),
        blake3_hex(manifest_digest_input(canonical_entries(first))) == blake3_hex(
            manifest_digest_input(canonical_entries(second)),
        ),
        manifest_result(SCOPE_SCHEMA_VERSION, first) is Ok ==> manifest_result(
            SCOPE_SCHEMA_VERSION,
            second,
        ) == manifest_result(SCOPE_SCHEMA_VERSION, first),
{
    lemma_same_document_entries(first, second);
    lemma_same_canonical_entries(first, second);
    if manifest_result(SCOPE_SCHEMA_VERSION, first) is Ok {
        lemma_same_acceptance(first, second);
    }
}

} // verus!
