//! What one parsed source file contributes: decision candidates and Specification definitions.
use vstd::prelude::*;

use crate::digest::{blake3_digest, blake3_hex};
use crate::fingerprint::{
    base_text, distinct_fingerprints, drafted_in, has_base_form, has_fingerprint_form, is_hex16,
    lemma_kind_colon_free, lemma_numbered_fingerprints,
};
use crate::model::{
    optional_text_view, Candidate, CandidateView, DefinitionView, Language,
    SpecificationDefinition,
};
use crate::syntax::{field_child, field_position, one_based, one_based_position, SyntaxNode, SyntaxTree};
use crate::text::{
    after_last, append_chars, append_str, before_first, copy_range, find_any, find_sub,
    find_sub_exec, first_line_of_text, first_text_line, is_text, lemma_end_ws_bounds,
    lemma_find_any_bounds, lemma_skip_ws_bounds, opt_chars, position_of_any, prefix_before_first,
    prefix_upto, remove_ws, rfind_sub, rfind_sub_exec, starts_with, starts_with_exec, string_from,
    suffix_after_last, take_prefix, text_equal, to_chars, trim, trim_end_char, trim_start, trimmed,
    trimmed_end_char, trimmed_start, without_whitespace, decimal, append_decimal, is_ws,
    lemma_after_last_suffix, lemma_before_first_absent, lemma_trim_unchanged,
};
use vstd::utf8::encode_utf8;

verus! {

// ---------------------------------------------------------------- Specification names

pub open spec fn is_spec_marker_text(name: Seq<char>) -> bool {
    ||| name == "Specification"@
    ||| name == "AsyncSpecification"@
    ||| name == "DecisionSpec"@
    ||| name == "AsyncDecisionSpec"@
    ||| name == "DecisionSpecification"@
    ||| name == "AutoContextSpecification"@
}

/// The last path segment of a base type, before any generic arguments.
pub open spec fn spec_base_name(text: Seq<char>) -> Seq<char> {
    let base = trim(before_first(trim(text), seq!['[', '<']));
    trim(after_last(base, seq!['.', ':']))
}

pub open spec fn is_spec_base_text(text: Seq<char>) -> bool {
    is_spec_marker_text(spec_base_name(text))
}

fn marker_chars(name: &[char]) -> (r: bool)
    ensures
        r == is_spec_marker_text(name@),
{
    is_text(name, "Specification") || is_text(name, "AsyncSpecification") || is_text(
        name,
        "DecisionSpec",
    ) || is_text(name, "AsyncDecisionSpec") || is_text(name, "DecisionSpecification") || is_text(
        name,
        "AutoContextSpecification",
    )
}

pub fn is_spec_marker(name: &str) -> (r: bool)
    ensures
        r == is_spec_marker_text(name@),
{
    let chars = to_chars(name);
    marker_chars(chars.as_slice())
}

fn base_chars(text: &[char]) -> (r: bool)
    ensures
        r == is_spec_base_text(text@),
{
    let outer = trimmed(text);
    let brackets = ['[', '<'];
    let head = prefix_before_first(outer.as_slice(), &brackets);
    let base = trimmed(head.as_slice());
    let separators = ['.', ':'];
    proof {
        assert(brackets@ == seq!['[', '<']);
        assert(separators@ == seq!['.', ':']);
        assert(base@.len() <= text@.len()) by {
            lemma_skip_ws_bounds(text@, 0);
            lemma_end_ws_bounds(text@, text@.len() as int);
            lemma_find_any_bounds(outer@, brackets@, 0);
            lemma_skip_ws_bounds(head@, 0);
            lemma_end_ws_bounds(head@, head@.len() as int);
        }
    }
    let last = suffix_after_last(base.as_slice(), &separators);
    let name = trimmed(last.as_slice());
    marker_chars(name.as_slice())
}

/// Whether a base type, trait, or conformance names a recognized Specification type.
pub fn is_spec_base(text: &str) -> (r: bool)
    ensures
        r == is_spec_base_text(text@),
{
    let chars = to_chars(text);
    base_chars(chars.as_slice())
}

// ---------------------------------------------------------------- declarations

pub open spec fn has_spec_base_child(bases: SyntaxNode) -> bool {
    exists|i: int|
        0 <= i < bases.children@.len() && (#[trigger] bases.children@[i]).named
            && is_spec_base_text(bases.children@[i].text@)
}

pub open spec fn conforms_to_specification(specifier: SyntaxNode) -> bool {
    &&& specifier.named
    &&& specifier.kind@ == "inheritance_specifier"@
    &&& match field_child(specifier, "inherits_from"@) {
        Some(base) => is_spec_base_text(base.text@),
        None => false,
    }
}

pub open spec fn inherits_specification(node: SyntaxNode) -> bool {
    exists|i: int|
        0 <= i < node.children@.len() && conforms_to_specification(#[trigger] node.children@[i])
}

/// The node that names a recognized Specification declaration.
pub open spec fn declaration_name_node(language: Language, node: SyntaxNode) -> Option<SyntaxNode> {
    if language == Language::Python && node.kind@ == "class_definition"@ {
        match field_child(node, "superclasses"@) {
            Some(bases) => if has_spec_base_child(bases) {
                field_child(node, "name"@)
            } else {
                None
            },
            None => None,
        }
    } else if language == Language::Swift && node.kind@ == "class_declaration"@ {
        if inherits_specification(node) {
            field_child(node, "name"@)
        } else {
            None
        }
    } else if language == Language::Rust && node.kind@ == "impl_item"@ {
        match field_child(node, "trait"@) {
            Some(implemented) => if is_spec_base_text(implemented.text@) {
                field_child(node, "type"@)
            } else {
                None
            },
            None => None,
        }
    } else {
        None
    }
}

/// The name of the Specification that `node` declares, if it declares one.
pub open spec fn declaration_name(language: Language, node: SyntaxNode) -> Option<Seq<char>> {
    match declaration_name_node(language, node) {
        Some(name) => if trim(name.text@).len() > 0 {
            Some(trim(name.text@))
        } else {
            None
        },
        None => None,
    }
}

fn kind_is(node: &SyntaxNode, kind: &str) -> (r: bool)
    ensures
        r == (node.kind@ == kind@),
{
    text_equal(node.kind.as_str(), kind)
}

fn text_chars(node: &SyntaxNode) -> (r: Vec<char>)
    ensures
        r@ == node.text@,
{
    to_chars(node.text.as_str())
}

fn child_at_field<'a>(node: &'a SyntaxNode, field: &str) -> (r: Option<&'a SyntaxNode>)
    ensures
        match r {
            Some(child) => field_child(*node, field@) == Some(*child),
            None => field_child(*node, field@) is None,
        },
{
    match field_position(node, field) {
        Some(i) => Some(&node.children[i]),
        None => None,
    }
}

fn has_spec_base_child_exec(bases: &SyntaxNode) -> (r: bool)
    ensures
        r == has_spec_base_child(*bases),
{
    let mut i: usize = 0;
    while i < bases.children.len()
        invariant
            i <= bases.children@.len(),
            forall|j: int|
                0 <= j < i ==> !((#[trigger] bases.children@[j]).named && is_spec_base_text(
                    bases.children@[j].text@,
                )),
        decreases bases.children@.len() - i,
    {
        let child = &bases.children[i];
        if child.named {
            let text = text_chars(child);
            if base_chars(text.as_slice()) {
                return true;
            }
        }
        i = i + 1;
    }
    false
}

fn conforms_exec(specifier: &SyntaxNode) -> (r: bool)
    ensures
        r == conforms_to_specification(*specifier),
{
    if !specifier.named || !kind_is(specifier, "inheritance_specifier") {
        return false;
    }
    match child_at_field(specifier, "inherits_from") {
        Some(base) => {
            let text = text_chars(base);
            base_chars(text.as_slice())
        },
        None => false,
    }
}

fn inherits_specification_exec(node: &SyntaxNode) -> (r: bool)
    ensures
        r == inherits_specification(*node),
{
    let mut i: usize = 0;
    while i < node.children.len()
        invariant
            i <= node.children@.len(),
            forall|j: int| 0 <= j < i ==> !conforms_to_specification(#[trigger] node.children@[j]),
        decreases node.children@.len() - i,
    {
        if conforms_exec(&node.children[i]) {
            return true;
        }
        i = i + 1;
    }
    false
}

fn declaration_name_node_exec<'a>(language: Language, node: &'a SyntaxNode) -> (r: Option<
    &'a SyntaxNode,
>)
    ensures
        match r {
            Some(name) => declaration_name_node(language, *node) == Some(*name),
            None => declaration_name_node(language, *node) is None,
        },
{
    match language {
        Language::Python => {
            if !kind_is(node, "class_definition") {
                return None;
            }
            match child_at_field(node, "superclasses") {
                Some(bases) => {
                    if has_spec_base_child_exec(bases) {
                        child_at_field(node, "name")
                    } else {
                        None
                    }
                },
                None => None,
            }
        },
        Language::Swift => {
            if !kind_is(node, "class_declaration") {
                return None;
            }
            if inherits_specification_exec(node) {
                child_at_field(node, "name")
            } else {
                None
            }
        },
        Language::Rust => {
            if !kind_is(node, "impl_item") {
                return None;
            }
            match child_at_field(node, "trait") {
                Some(implemented) => {
                    let text = text_chars(implemented);
                    if base_chars(text.as_slice()) {
                        child_at_field(node, "type")
                    } else {
                        None
                    }
                },
                None => None,
            }
        },
    }
}

fn declaration_name_exec(language: Language, node: &SyntaxNode) -> (r: Option<Vec<char>>)
    ensures
        opt_chars(r) == declaration_name(language, *node),
{
    match declaration_name_node_exec(language, node) {
        Some(name) => {
            let text = text_chars(name);
            let inner = trimmed(text.as_slice());
            if inner.len() > 0 {
                Some(inner)
            } else {
                None
            }
        },
        None => None,
    }
}

// ---------------------------------------------------------------- factories

pub open spec fn is_swift_factory_name(name: Seq<char>) -> bool {
    name == "PredicateSpec"@ || name == "FirstMatchSpec"@
}

/// A Swift factory written with explicit generic arguments, such as `PredicateSpec<Int> { ... }`.
pub open spec fn swift_generic_factory(text: Seq<char>) -> Option<Seq<char>> {
    let expression = trim(text);
    let open = find_any(expression, seq!['<'], 0);
    if open < expression.len() {
        let head = expression.take(open);
        let tail = expression.skip(open + 1);
        let factory = trim(after_last(head, seq!['.']));
        let close = find_any(tail, seq!['>'], 0);
        if is_swift_factory_name(factory) && close < tail.len() && starts_with(
            trim_start(tail.skip(close + 1)),
            "{"@,
        ) {
            Some(factory)
        } else {
            None
        }
    } else {
        None
    }
}

/// The callee text of a call expression.
pub open spec fn called_text(language: Language, node: SyntaxNode) -> Option<Seq<char>> {
    if (language == Language::Python && node.kind@ == "call"@) || (language == Language::Rust
        && node.kind@ == "call_expression"@) {
        match field_child(node, "function"@) {
            Some(function) => Some(function.text@),
            None => None,
        }
    } else if language == Language::Swift && node.kind@ == "call_expression"@ {
        Some(trim(before_first(node.text@, seq!['(', '{'])))
    } else {
        None
    }
}

/// `FirstMatch::new` or `FirstMatch::default`, with any path and generic arguments.
pub open spec fn is_rust_first_match(called: Seq<char>) -> bool {
    let split = rfind_sub(called, "::"@, called.len() - "::"@.len());
    split >= 0 && {
        let receiver = called.take(split);
        let method = called.skip(split + "::"@.len());
        let stripped = trim_end_char(receiver, '>');
        let turbofish = find_sub(stripped, "::<"@, 0);
        let path = if turbofish >= 0 {
            stripped.take(turbofish)
        } else {
            stripped
        };
        let last_separator = rfind_sub(path, "::"@, path.len() - "::"@.len());
        let segment = if last_separator >= 0 {
            path.skip(last_separator + "::"@.len())
        } else {
            path
        };
        segment == "FirstMatch"@ && (method == "new"@ || method == "default"@)
    }
}

pub open spec fn is_known_factory(language: Language, called: Seq<char>) -> bool {
    let base = trim(before_first(called, seq!['<']));
    let last = trim(after_last(base, seq!['.', ':']));
    match language {
        Language::Python => last == "PredicateSpec"@ || last == "AsyncPredicateSpec"@ || last
            == "FirstMatch"@ || last == "AsyncFirstMatch"@,
        Language::Swift => is_swift_factory_name(last),
        Language::Rust => is_rust_first_match(called),
    }
}

/// The factory that `node` calls, if it constructs a recognized Specification.
pub open spec fn factory_name(language: Language, node: SyntaxNode) -> Option<Seq<char>> {
    if language == Language::Swift && node.kind@ == "comparison_expression"@ {
        swift_generic_factory(node.text@)
    } else {
        match called_text(language, node) {
            Some(callee) => if is_known_factory(language, trim(callee)) {
                Some(trim(callee))
            } else {
                None
            },
            None => None,
        }
    }
}

/// A base type named `Specification`, `AsyncSpecification`, `DecisionSpec`,
/// `AsyncDecisionSpec`, `DecisionSpecification` or `AutoContextSpecification`, bare or behind a
/// dotted path, is a Specification base.
pub proof fn lemma_specification_bases(prefix: Seq<char>, name: Seq<char>)
    requires
        name == "Specification"@ || name == "AsyncSpecification"@ || name == "DecisionSpec"@
            || name == "AsyncDecisionSpec"@ || name == "DecisionSpecification"@ || name
            == "AutoContextSpecification"@,
        prefix.len() == 0 || prefix.last() == '.',
        prefix.len() > 0 ==> !is_ws(prefix[0]),
        forall|k: int| 0 <= k < prefix.len() ==> #[trigger] prefix[k] != '<' && prefix[k] != '[',
    ensures
        is_spec_base_text(prefix + name),
{
    reveal_strlit("Specification");
    reveal_strlit("AsyncSpecification");
    reveal_strlit("DecisionSpec");
    reveal_strlit("AsyncDecisionSpec");
    reveal_strlit("DecisionSpecification");
    reveal_strlit("AutoContextSpecification");
    assert(name.len() > 0 && !is_ws(name[0]) && !is_ws(name[name.len() - 1]));
    assert(forall|k: int|
        0 <= k < name.len() ==> #[trigger] name[k] != '.' && name[k] != ':' && name[k] != '<'
            && name[k] != '[');
    let f = prefix + name;
    assert(f[f.len() - 1] == name[name.len() - 1]);
    if prefix.len() > 0 {
        assert(f[0] == prefix[0]);
    } else {
        assert(f[0] == name[0]);
    }
    lemma_trim_unchanged(f);
    assert forall|k: int| 0 <= k < f.len() implies !seq!['[', '<'].contains(#[trigger] f[k]) by {
        if k < prefix.len() {
            assert(f[k] == prefix[k]);
        } else {
            assert(f[k] == name[k - prefix.len()]);
        }
    }
    lemma_before_first_absent(f, seq!['[', '<']);
    assert forall|k: int| 0 <= k < name.len() implies !seq!['.', ':'].contains(#[trigger] name[k]) by {
        assert(name[k] != '.' && name[k] != ':');
    }
    if prefix.len() > 0 {
        assert(seq!['.', ':'].contains(prefix.last())) by {
            assert(seq!['.', ':'][0] == '.');
        }
    }
    lemma_after_last_suffix(prefix, name, seq!['.', ':']);
    lemma_trim_unchanged(name);
    assert(spec_base_name(f) == name);
}

proof fn lemma_python_factory_name_text(name: Seq<char>)
    requires
        name == "PredicateSpec"@ || name == "AsyncPredicateSpec"@ || name == "FirstMatch"@
            || name == "AsyncFirstMatch"@,
    ensures
        name.len() > 0,
        !is_ws(name[0]),
        !is_ws(name[name.len() - 1]),
        forall|k: int|
            0 <= k < name.len() ==> #[trigger] name[k] != '.' && name[k] != ':' && name[k] != '<',
{
    reveal_strlit("PredicateSpec");
    reveal_strlit("AsyncPredicateSpec");
    reveal_strlit("FirstMatch");
    reveal_strlit("AsyncFirstMatch");
}

/// A Python call of `PredicateSpec`, `AsyncPredicateSpec`, `FirstMatch` or `AsyncFirstMatch`,
/// by its bare name or a dotted path, is a factory site: a Specification definition named by
/// the callee.
pub proof fn lemma_python_factory_calls_are_definitions(
    path: Seq<char>,
    node: SyntaxNode,
    function: SyntaxNode,
    prefix: Seq<char>,
    name: Seq<char>,
)
    requires
        node.kind@ == "call"@,
        field_child(node, "function"@) == Some(function),
        function.text@ == prefix + name,
        name == "PredicateSpec"@ || name == "AsyncPredicateSpec"@ || name == "FirstMatch"@
            || name == "AsyncFirstMatch"@,
        prefix.len() == 0 || prefix.last() == '.',
        prefix.len() > 0 ==> !is_ws(prefix[0]),
        forall|k: int| 0 <= k < prefix.len() ==> #[trigger] prefix[k] != '<',
    ensures
        node_definition(Language::Python, path, node) == Some(
            DefinitionView {
                language: Language::Python,
                path,
                name: prefix + name,
                kind: "factory"@,
                line: one_based_position(node.row),
                column: one_based_position(node.column),
            },
        ),
{
    reveal_strlit("call");
    reveal_strlit("class_definition");
    lemma_python_factory_name_text(name);
    let f = prefix + name;
    assert(f[f.len() - 1] == name[name.len() - 1]);
    if prefix.len() > 0 {
        assert(f[0] == prefix[0]);
    } else {
        assert(f[0] == name[0]);
    }
    lemma_trim_unchanged(f);
    assert forall|k: int| 0 <= k < f.len() implies !seq!['<'].contains(#[trigger] f[k]) by {
        if k < prefix.len() {
            assert(f[k] == prefix[k]);
        } else {
            assert(f[k] == name[k - prefix.len()]);
        }
    }
    lemma_before_first_absent(f, seq!['<']);
    assert forall|k: int| 0 <= k < name.len() implies !seq!['.', ':'].contains(#[trigger] name[k]) by {
        assert(name[k] != '.' && name[k] != ':');
    }
    if prefix.len() > 0 {
        assert(seq!['.', ':'].contains(prefix.last())) by {
            assert(seq!['.', ':'][0] == '.');
        }
    }
    lemma_after_last_suffix(prefix, name, seq!['.', ':']);
    lemma_trim_unchanged(name);
    assert("call"@.len() == 4 && "class_definition"@.len() == 16);
    assert(node.kind@ != "class_definition"@);
    assert(declaration_name_node(Language::Python, node) is None);
    assert(called_text(Language::Python, node) == Some(f));
    assert(is_known_factory(Language::Python, f));
}

proof fn lemma_trim_len(s: Seq<char>)
    ensures
        trim(s).len() <= s.len(),
{
    lemma_skip_ws_bounds(s, 0);
    lemma_end_ws_bounds(s, s.len() as int);
}

fn swift_generic_factory_exec(text: &[char]) -> (r: Option<Vec<char>>)
    ensures
        opt_chars(r) == swift_generic_factory(text@),
{
    let expression = trimmed(text);
    proof {
        lemma_trim_len(text@);
    }
    let lt = ['<'];
    let gt = ['>'];
    let dot = ['.'];
    let brace = ['{'];
    assert(lt@ == seq!['<'] && gt@ == seq!['>'] && dot@ == seq!['.'] && brace@ == seq!['{']);
    proof {
        lemma_find_any_bounds(expression@, lt@, 0);
    }
    let open = position_of_any(expression.as_slice(), &lt, 0);
    if open >= expression.len() {
        return None;
    }
    let head = copy_range(expression.as_slice(), 0, open);
    let tail = copy_range(expression.as_slice(), open + 1, expression.len());
    assert(head@ == expression@.take(open as int));
    assert(tail@ == expression@.skip(open + 1));
    let last = suffix_after_last(head.as_slice(), &dot);
    let factory = trimmed(last.as_slice());
    proof {
        lemma_find_any_bounds(tail@, gt@, 0);
    }
    let close = position_of_any(tail.as_slice(), &gt, 0);
    if !(is_text(factory.as_slice(), "PredicateSpec") || is_text(factory.as_slice(), "FirstMatchSpec")) {
        return None;
    }
    if close >= tail.len() {
        return None;
    }
    let after = copy_range(tail.as_slice(), close + 1, tail.len());
    assert(after@ == tail@.skip(close + 1));
    let rest = trimmed_start(after.as_slice());
    let brace_chars = to_chars("{");
    if starts_with_exec(rest.as_slice(), brace_chars.as_slice()) {
        Some(factory)
    } else {
        None
    }
}

fn called_text_exec(language: Language, node: &SyntaxNode) -> (r: Option<Vec<char>>)
    ensures
        opt_chars(r) == called_text(language, *node),
{
    let python_call = match language {
        Language::Python => kind_is(node, "call"),
        _ => false,
    };
    let rust_call = match language {
        Language::Rust => kind_is(node, "call_expression"),
        _ => false,
    };
    if python_call || rust_call {
        match child_at_field(node, "function") {
            Some(function) => Some(text_chars(function)),
            None => None,
        }
    } else {
        match language {
            Language::Swift => {
                if kind_is(node, "call_expression") {
                    let text = text_chars(node);
                    let stops = ['(', '{'];
                    assert(stops@ == seq!['(', '{']);
                    let head = prefix_before_first(text.as_slice(), &stops);
                    Some(trimmed(head.as_slice()))
                } else {
                    None
                }
            },
            _ => None,
        }
    }
}

fn rust_first_match_exec(called: &[char]) -> (r: bool)
    ensures
        r == is_rust_first_match(called@),
{
    let separator = to_chars("::");
    let turbofish = to_chars("::<");
    let length = called.len();
    let split = match rfind_sub_exec(called, separator.as_slice()) {
        Some(k) => k,
        None => {
            return false;
        },
    };
    proof {
        crate::text::lemma_rfind_sub_bounds(called@, separator@, called@.len() - separator@.len());
    }
    let receiver = copy_range(called, 0, split);
    let method = copy_range(called, split + separator.len(), called.len());
    assert(receiver@ == called@.take(split as int));
    assert(method@ == called@.skip(split + separator@.len()));
    let stripped = trimmed_end_char(receiver.as_slice(), '>');
    let path = match find_sub_exec(stripped.as_slice(), turbofish.as_slice(), 0) {
        Some(cut) => {
            proof {
                crate::text::lemma_find_sub_bounds(stripped@, turbofish@, 0);
            }
            let path = copy_range(stripped.as_slice(), 0, cut);
            assert(path@ == stripped@.take(cut as int));
            path
        },
        None => {
            let path = copy_range(stripped.as_slice(), 0, stripped.len());
            assert(path@ =~= stripped@);
            path
        },
    };
    let segment = match rfind_sub_exec(path.as_slice(), separator.as_slice()) {
        Some(last) => {
            proof {
                crate::text::lemma_rfind_sub_bounds(path@, separator@, path@.len() - separator@.len());
            }
            let segment = copy_range(path.as_slice(), last + separator.len(), path.len());
            assert(segment@ == path@.skip(last + separator@.len()));
            segment
        },
        None => {
            let segment = copy_range(path.as_slice(), 0, path.len());
            assert(segment@ =~= path@);
            segment
        },
    };
    is_text(segment.as_slice(), "FirstMatch") && (is_text(method.as_slice(), "new") || is_text(
        method.as_slice(),
        "default",
    ))
}

fn known_factory_exec(language: Language, called: &[char]) -> (r: bool)
    ensures
        r == is_known_factory(language, called@),
{
    let angle = ['<'];
    let separators = ['.', ':'];
    assert(angle@ == seq!['<'] && separators@ == seq!['.', ':']);
    let head = prefix_before_first(called, &angle);
    let base = trimmed(head.as_slice());
    proof {
        lemma_find_any_bounds(called@, angle@, 0);
        lemma_trim_len(head@);
    }
    let tail = suffix_after_last(base.as_slice(), &separators);
    let last = trimmed(tail.as_slice());
    match language {
        Language::Python => is_text(last.as_slice(), "PredicateSpec") || is_text(
            last.as_slice(),
            "AsyncPredicateSpec",
        ) || is_text(last.as_slice(), "FirstMatch") || is_text(
            last.as_slice(),
            "AsyncFirstMatch",
        ),
        Language::Swift => is_text(last.as_slice(), "PredicateSpec") || is_text(
            last.as_slice(),
            "FirstMatchSpec",
        ),
        Language::Rust => rust_first_match_exec(called),
    }
}

fn factory_name_exec(language: Language, node: &SyntaxNode) -> (r: Option<Vec<char>>)
    ensures
        opt_chars(r) == factory_name(language, *node),
{
    let swift = match language {
        Language::Swift => true,
        _ => false,
    };
    if swift && kind_is(node, "comparison_expression") {
        let text = text_chars(node);
        return swift_generic_factory_exec(text.as_slice());
    }
    match called_text_exec(language, node) {
        Some(callee) => {
            let called = trimmed(callee.as_slice());
            proof {
                lemma_trim_len(callee@);
            }
            if known_factory_exec(language, called.as_slice()) {
                Some(called)
            } else {
                None
            }
        },
        None => None,
    }
}

// ---------------------------------------------------------------- decisions

#[derive(Clone, Copy, Debug, PartialEq, Eq, Structural)]
pub enum DecisionKind {
    If,
    ConditionalExpression,
    ComprehensionFilter,
    Match,
    Guard,
    Switch,
    Defer,
}

impl DecisionKind {
    pub open spec fn label_text(self) -> Seq<char> {
        match self {
            DecisionKind::If => "if"@,
            DecisionKind::ConditionalExpression => "conditional_expression"@,
            DecisionKind::ComprehensionFilter => "comprehension_filter"@,
            DecisionKind::Match => "match"@,
            DecisionKind::Guard => "guard"@,
            DecisionKind::Switch => "switch"@,
            DecisionKind::Defer => "defer"@,
        }
    }

    pub fn label(self) -> (r: &'static str)
        ensures
            r@ == self.label_text(),
    {
        match self {
            DecisionKind::If => "if",
            DecisionKind::ConditionalExpression => "conditional_expression",
            DecisionKind::ComprehensionFilter => "comprehension_filter",
            DecisionKind::Match => "match",
            DecisionKind::Guard => "guard",
            DecisionKind::Switch => "switch",
            DecisionKind::Defer => "defer",
        }
    }
}

/// The decision construct that a node type stands for in each language.
pub open spec fn decision_for_kind(language: Language, kind: Seq<char>) -> Option<DecisionKind> {
    match language {
        Language::Python => if kind == "if_statement"@ {
            Some(DecisionKind::If)
        } else if kind == "conditional_expression"@ {
            Some(DecisionKind::ConditionalExpression)
        } else if kind == "if_clause"@ {
            Some(DecisionKind::ComprehensionFilter)
        } else if kind == "match_statement"@ {
            Some(DecisionKind::Match)
        } else {
            None
        },
        Language::Swift => if kind == "if_statement"@ || kind == "if_expression"@ {
            Some(DecisionKind::If)
        } else if kind == "guard_statement"@ {
            Some(DecisionKind::Guard)
        } else if kind == "switch_statement"@ || kind == "switch_expression"@ {
            Some(DecisionKind::Switch)
        } else {
            None
        },
        Language::Rust => if kind == "if_expression"@ {
            Some(DecisionKind::If)
        } else if kind == "match_expression"@ {
            Some(DecisionKind::Match)
        } else {
            None
        },
    }
}

pub open spec fn is_if_kind(kind: Option<Seq<char>>) -> bool {
    kind == Some("if_expression"@) || kind == Some("if_statement"@)
}

/// An `if` that continues an `else if` chain, judged by its parent and grandparent types.
pub open spec fn is_direct_else_if(parent: Option<Seq<char>>, grandparent: Option<Seq<char>>) -> bool {
    is_if_kind(parent) || ((parent == Some("else_clause"@) || parent == Some("else"@))
        && is_if_kind(grandparent))
}

/// Swift text of the form `defer { ... }`.
pub open spec fn is_defer_text(text: Seq<char>) -> bool {
    let start = trim_start(text);
    starts_with(start, "defer"@) && starts_with(trim_start(start.skip("defer"@.len() as int)), "{"@)
}

/// The decision that `node` opens, if any; an `else if` continues its chain and opens none.
pub open spec fn decision_of(
    language: Language,
    node: SyntaxNode,
    parent: Option<Seq<char>>,
    grandparent: Option<Seq<char>>,
) -> Option<DecisionKind> {
    if language == Language::Swift && node.kind@ == "call_expression"@ && is_defer_text(node.text@) {
        Some(DecisionKind::Defer)
    } else {
        match decision_for_kind(language, node.kind@) {
            Some(DecisionKind::If) => if is_direct_else_if(parent, grandparent) {
                None
            } else {
                Some(DecisionKind::If)
            },
            other => other,
        }
    }
}

fn decision_for_kind_exec(language: Language, node: &SyntaxNode) -> (r: Option<DecisionKind>)
    ensures
        r == decision_for_kind(language, node.kind@),
{
    match language {
        Language::Python => if kind_is(node, "if_statement") {
            Some(DecisionKind::If)
        } else if kind_is(node, "conditional_expression") {
            Some(DecisionKind::ConditionalExpression)
        } else if kind_is(node, "if_clause") {
            Some(DecisionKind::ComprehensionFilter)
        } else if kind_is(node, "match_statement") {
            Some(DecisionKind::Match)
        } else {
            None
        },
        Language::Swift => if kind_is(node, "if_statement") || kind_is(node, "if_expression") {
            Some(DecisionKind::If)
        } else if kind_is(node, "guard_statement") {
            Some(DecisionKind::Guard)
        } else if kind_is(node, "switch_statement") || kind_is(node, "switch_expression") {
            Some(DecisionKind::Switch)
        } else {
            None
        },
        Language::Rust => if kind_is(node, "if_expression") {
            Some(DecisionKind::If)
        } else if kind_is(node, "match_expression") {
            Some(DecisionKind::Match)
        } else {
            None
        },
    }
}

fn kind_option_is(kind: Option<&str>, expected: &str) -> (r: bool)
    ensures
        r == (optional_text_view(kind) == Some(expected@)),
{
    match kind {
        Some(text) => text_equal(text, expected),
        None => false,
    }
}

fn direct_else_if_exec(parent: Option<&str>, grandparent: Option<&str>) -> (r: bool)
    ensures
        r == is_direct_else_if(optional_text_view(parent), optional_text_view(grandparent)),
{
    let parent_if = kind_option_is(parent, "if_expression") || kind_option_is(parent, "if_statement");
    let grandparent_if = kind_option_is(grandparent, "if_expression") || kind_option_is(
        grandparent,
        "if_statement",
    );
    let parent_else = kind_option_is(parent, "else_clause") || kind_option_is(parent, "else");
    parent_if || (parent_else && grandparent_if)
}

fn defer_text_exec(text: &[char]) -> (r: bool)
    ensures
        r == is_defer_text(text@),
{
    let start = trimmed_start(text);
    let keyword = to_chars("defer");
    if !starts_with_exec(start.as_slice(), keyword.as_slice()) {
        return false;
    }
    let rest = copy_range(start.as_slice(), keyword.len(), start.len());
    assert(rest@ == start@.skip(keyword@.len() as int));
    let after = trimmed_start(rest.as_slice());
    let brace = to_chars("{");
    starts_with_exec(after.as_slice(), brace.as_slice())
}

pub fn decision_kind(
    language: Language,
    node: &SyntaxNode,
    parent: Option<&str>,
    grandparent: Option<&str>,
) -> (r: Option<DecisionKind>)
    ensures
        r == decision_of(
            language,
            *node,
            optional_text_view(parent),
            optional_text_view(grandparent),
        ),
{
    let swift = match language {
        Language::Swift => true,
        _ => false,
    };
    if swift && kind_is(node, "call_expression") {
        let text = text_chars(node);
        if defer_text_exec(text.as_slice()) {
            return Some(DecisionKind::Defer);
        }
    }
    match decision_for_kind_exec(language, node) {
        Some(DecisionKind::If) => if direct_else_if_exec(parent, grandparent) {
            None
        } else {
            Some(DecisionKind::If)
        },
        other => other,
    }
}

// ---------------------------------------------------------------- findings of one tree

/// `language:path:kind:` followed by the first 16 hexadecimal digits of the digest of the
/// construct's text with all whitespace removed.
pub open spec fn fingerprint_base(
    language: Language,
    path: Seq<char>,
    kind: DecisionKind,
    text: Seq<char>,
) -> Seq<char> {
    language.label_text() + seq![':'] + path + seq![':'] + kind.label_text() + seq![':']
        + blake3_hex(encode_utf8(remove_ws(text))).take(16)
}

/// The first line of a construct that holds more than whitespace, trimmed, to 120 characters.
pub open spec fn excerpt_of(text: Seq<char>) -> Seq<char> {
    prefix_upto(first_text_line(text, 0), 120)
}

/// The candidate that `node` adds, before it is numbered within its file.
pub open spec fn node_candidate(
    language: Language,
    path: Seq<char>,
    node: SyntaxNode,
    parent: Option<Seq<char>>,
    grandparent: Option<Seq<char>>,
    inside: bool,
) -> Option<CandidateView> {
    match decision_of(language, node, parent, grandparent) {
        Some(kind) => Some(
            CandidateView {
                fingerprint: fingerprint_base(language, path, kind, node.text@),
                language,
                path,
                kind: kind.label_text(),
                line: one_based_position(node.row),
                column: one_based_position(node.column),
                excerpt: excerpt_of(node.text@),
                inside_specification: inside,
            },
        ),
        None => None,
    }
}

/// The Specification definition that `node` adds: a declaration, else a factory site.
pub open spec fn node_definition(language: Language, path: Seq<char>, node: SyntaxNode) -> Option<
    DefinitionView,
> {
    match declaration_name(language, node) {
        Some(name) => Some(
            DefinitionView {
                language,
                path,
                name,
                kind: "declaration"@,
                line: one_based_position(node.row),
                column: one_based_position(node.column),
            },
        ),
        None => match factory_name(language, node) {
            Some(name) => Some(
                DefinitionView {
                    language,
                    path,
                    name,
                    kind: "factory"@,
                    line: one_based_position(node.row),
                    column: one_based_position(node.column),
                },
            ),
            None => None,
        },
    }
}

pub open spec fn option_seq<T>(item: Option<T>) -> Seq<T> {
    match item {
        Some(x) => seq![x],
        None => Seq::empty(),
    }
}

/// Definitions of `node` and of the named nodes below it, in document order.
pub open spec fn tree_definitions(language: Language, path: Seq<char>, node: SyntaxNode) -> Seq<
    DefinitionView,
>
    decreases node,
{
    option_seq(node_definition(language, path, node)) + child_definitions(language, path, node, 0)
}

pub open spec fn child_definitions(
    language: Language,
    path: Seq<char>,
    node: SyntaxNode,
    i: int,
) -> Seq<DefinitionView>
    decreases node, node.children@.len() - i,
{
    if 0 <= i < node.children@.len() {
        let child = node.children@[i];
        (if child.named {
            tree_definitions(language, path, child)
        } else {
            Seq::empty()
        }) + child_definitions(language, path, node, i + 1)
    } else {
        Seq::empty()
    }
}

/// Candidates of `node` and of the named nodes below it, in document order. A candidate is
/// inside a Specification when it or an enclosing node defines one.
pub open spec fn tree_candidates(
    language: Language,
    path: Seq<char>,
    node: SyntaxNode,
    parent: Option<Seq<char>>,
    grandparent: Option<Seq<char>>,
    inside: bool,
) -> Seq<CandidateView>
    decreases node,
{
    let inside_here = inside || node_definition(language, path, node) is Some;
    option_seq(node_candidate(language, path, node, parent, grandparent, inside_here))
        + child_candidates(language, path, node, 0, parent, inside_here)
}

pub open spec fn child_candidates(
    language: Language,
    path: Seq<char>,
    node: SyntaxNode,
    i: int,
    parent: Option<Seq<char>>,
    inside: bool,
) -> Seq<CandidateView>
    decreases node, node.children@.len() - i,
{
    if 0 <= i < node.children@.len() {
        let child = node.children@[i];
        (if child.named {
            tree_candidates(language, path, child, Some(node.kind@), parent, inside)
        } else {
            Seq::empty()
        }) + child_candidates(language, path, node, i + 1, parent, inside)
    } else {
        Seq::empty()
    }
}

fn make_candidate(
    language: Language,
    path: &str,
    node: &SyntaxNode,
    kind: DecisionKind,
    inside: bool,
) -> (r: Candidate)
    ensures
        r@ == (CandidateView {
            fingerprint: fingerprint_base(language, path@, kind, node.text@),
            language,
            path: path@,
            kind: kind.label_text(),
            line: one_based_position(node.row),
            column: one_based_position(node.column),
            excerpt: excerpt_of(node.text@),
            inside_specification: inside,
        }),
        has_base_form(r@),
{
    let text = text_chars(node);
    let normalized = without_whitespace(text.as_slice());
    let normalized_text = string_from(normalized.as_slice());
    let digest = blake3_digest(normalized_text.as_str().as_bytes());
    let digest_chars = to_chars(digest.as_str());
    let mut base: Vec<char> = Vec::new();
    append_str(&mut base, language.label());
    base.push(':');
    append_str(&mut base, path);
    base.push(':');
    append_str(&mut base, kind.label());
    base.push(':');
    append_chars(&mut base, &digest_chars.as_slice()[0..16]);
    proof {
        assert(digest_chars@.subrange(0, 16) == digest_chars@.take(16));
        assert(base@ =~= fingerprint_base(language, path@, kind, node.text@));
    }
    let line = first_line_of_text(text.as_slice());
    let excerpt = take_prefix(line.as_slice(), 120);
    let ghost h = digest_chars@.take(16);
    proof {
        assert(is_hex16(h)) by {
            assert forall|i: int| 0 <= i < 16 implies crate::digest::is_lower_hex(#[trigger] h[i]) by {
                assert(h[i] == digest@[i]);
            }
        }
        lemma_kind_colon_free(kind);
        assert(base@ == base_text(language, path@, kind.label_text(), h));
    }
    let r = Candidate {
        fingerprint: string_from(base.as_slice()),
        language,
        path: path.to_owned(),
        kind: kind.label().to_owned(),
        line: one_based(node.row),
        column: one_based(node.column),
        excerpt: string_from(excerpt.as_slice()),
        inside_specification: inside,
    };
    assert(r@.fingerprint == base_text(r@.language, r@.path, r@.kind, h));
    r
}

fn make_definition(
    language: Language,
    path: &str,
    node: &SyntaxNode,
    name: &[char],
    kind: &str,
) -> (r: SpecificationDefinition)
    ensures
        r@ == (DefinitionView {
            language,
            path: path@,
            name: name@,
            kind: kind@,
            line: one_based_position(node.row),
            column: one_based_position(node.column),
        }),
{
    SpecificationDefinition {
        language,
        path: path.to_owned(),
        name: string_from(name),
        kind: kind.to_owned(),
        line: one_based(node.row),
        column: one_based(node.column),
    }
}

/// Collects the findings of `node` and of the named nodes below it.
fn visit(
    node: &SyntaxNode,
    language: Language,
    path: &str,
    parent: Option<&str>,
    grandparent: Option<&str>,
    inside: bool,
    candidates: &mut Vec<Candidate>,
    definitions: &mut Vec<SpecificationDefinition>,
)
    requires
        drafted_in(old(candidates).deep_view(), path@),
    ensures
        drafted_in(final(candidates).deep_view(), path@),
        final(candidates).deep_view() == old(candidates).deep_view() + tree_candidates(
            language,
            path@,
            *node,
            optional_text_view(parent),
            optional_text_view(grandparent),
            inside,
        ),
        final(definitions).deep_view() == old(definitions).deep_view() + tree_definitions(
            language,
            path@,
            *node,
        ),
    decreases node,
{
    let ghost start_candidates = candidates.deep_view();
    let ghost start_definitions = definitions.deep_view();
    let declaration = declaration_name_exec(language, node);
    let factory = factory_name_exec(language, node);
    let defines = declaration.is_some() || factory.is_some();
    match &declaration {
        Some(name) => {
            let definition = make_definition(language, path, node, name.as_slice(), "declaration");
            definitions.push(definition);
        },
        None => match &factory {
            Some(name) => {
                let definition = make_definition(language, path, node, name.as_slice(), "factory");
                definitions.push(definition);
            },
            None => {},
        },
    }
    assert(definitions.deep_view() =~= start_definitions + option_seq(
        node_definition(language, path@, *node),
    ));
    let inside_here = inside || defines;
    match decision_kind(language, node, parent, grandparent) {
        Some(kind) => {
            let candidate = make_candidate(language, path, node, kind, inside_here);
            let ghost before = candidates.deep_view();
            candidates.push(candidate);
            assert(candidates.deep_view() =~= before.push(candidate@));
        },
        None => {},
    }
    let ghost own_candidates = option_seq(
        node_candidate(
            language,
            path@,
            *node,
            optional_text_view(parent),
            optional_text_view(grandparent),
            inside_here,
        ),
    );
    assert(candidates.deep_view() =~= start_candidates + own_candidates);
    let ghost after_own_candidates = candidates.deep_view();
    let ghost after_own_definitions = definitions.deep_view();
    let mut i: usize = 0;
    while i < node.children.len()
        invariant
            i <= node.children@.len(),
            drafted_in(candidates.deep_view(), path@),
            after_own_candidates + child_candidates(
                language,
                path@,
                *node,
                0,
                optional_text_view(parent),
                inside_here,
            ) == candidates.deep_view() + child_candidates(
                language,
                path@,
                *node,
                i as int,
                optional_text_view(parent),
                inside_here,
            ),
            after_own_definitions + child_definitions(language, path@, *node, 0)
                == definitions.deep_view() + child_definitions(language, path@, *node, i as int),
        decreases node.children@.len() - i,
    {
        let ghost before_candidates = candidates.deep_view();
        let ghost before_definitions = definitions.deep_view();
        let child = &node.children[i];
        if child.named {
            visit(
                child,
                language,
                path,
                Some(node.kind.as_str()),
                parent,
                inside_here,
                candidates,
                definitions,
            );
        }
        proof {
            let rest_c = child_candidates(
                language,
                path@,
                *node,
                i + 1,
                optional_text_view(parent),
                inside_here,
            );
            let part_c = if child.named {
                tree_candidates(
                    language,
                    path@,
                    *child,
                    Some(node.kind@),
                    optional_text_view(parent),
                    inside_here,
                )
            } else {
                Seq::empty()
            };
            assert(candidates.deep_view() =~= before_candidates + part_c);
            assert(before_candidates + (part_c + rest_c) =~= candidates.deep_view() + rest_c);
            let rest_d = child_definitions(language, path@, *node, i + 1);
            let part_d = if child.named {
                tree_definitions(language, path@, *child)
            } else {
                Seq::empty()
            };
            assert(definitions.deep_view() =~= before_definitions + part_d);
            assert(before_definitions + (part_d + rest_d) =~= definitions.deep_view() + rest_d);
        }
        i = i + 1;
    }
    proof {
        assert(candidates.deep_view() =~= candidates.deep_view() + child_candidates(
            language,
            path@,
            *node,
            i as int,
            optional_text_view(parent),
            inside_here,
        ));
        assert(definitions.deep_view() =~= definitions.deep_view() + child_definitions(
            language,
            path@,
            *node,
            i as int,
        ));
    }
}

// ---------------------------------------------------------------- numbering within a file

/// How many of `items` carry the fingerprint base `base`.
pub open spec fn count_base(items: Seq<CandidateView>, base: Seq<char>) -> nat
    decreases items.len(),
{
    if items.len() == 0 {
        0
    } else {
        count_base(items.drop_last(), base) + if items.last().fingerprint == base {
            1nat
        } else {
            0nat
        }
    }
}

pub open spec fn with_occurrence(candidate: CandidateView, occurrence: nat) -> CandidateView {
    CandidateView {
        fingerprint: candidate.fingerprint + seq![':'] + decimal(occurrence),
        ..candidate
    }
}

/// Each candidate's fingerprint base gains `:n`, where `n` counts the candidates up to and
/// including it that share the base.
pub open spec fn numbered(items: Seq<CandidateView>) -> Seq<CandidateView> {
    Seq::new(
        items.len(),
        |i: int| with_occurrence(items[i], count_base(items.take(i), items[i].fingerprint) + 1),
    )
}

fn count_earlier(items: &Vec<Candidate>, index: usize) -> (r: usize)
    requires
        index < items@.len(),
    ensures
        r == count_base(items.deep_view().take(index as int), items@[index as int].fingerprint@),
        r <= index,
{
    let mut count: usize = 0;
    let mut j: usize = 0;
    while j < index
        invariant
            j <= index < items@.len(),
            count <= j,
            count == count_base(
                items.deep_view().take(j as int),
                items@[index as int].fingerprint@,
            ),
        decreases index - j,
    {
        assert(items.deep_view().take(j + 1).drop_last() =~= items.deep_view().take(j as int));
        if items[j].fingerprint == items[index].fingerprint {
            count = count + 1;
        }
        j = j + 1;
    }
    count
}

fn renamed(candidate: &Candidate, fingerprint: String) -> (r: Candidate)
    ensures
        r@ == (CandidateView { fingerprint: fingerprint@, ..candidate@ }),
{
    Candidate {
        fingerprint,
        language: candidate.language,
        path: candidate.path.clone(),
        kind: candidate.kind.clone(),
        line: candidate.line,
        column: candidate.column,
        excerpt: candidate.excerpt.clone(),
        inside_specification: candidate.inside_specification,
    }
}

fn number_candidates(items: &Vec<Candidate>) -> (r: Vec<Candidate>)
    ensures
        r.deep_view() == numbered(items.deep_view()),
{
    let mut result: Vec<Candidate> = Vec::new();
    let mut i: usize = 0;
    while i < items.len()
        invariant
            i <= items@.len(),
            result.deep_view() =~= numbered(items.deep_view()).take(i as int),
        decreases items@.len() - i,
    {
        let earlier = count_earlier(items, i);
        let mut fingerprint = to_chars(items[i].fingerprint.as_str());
        fingerprint.push(':');
        append_decimal(&mut fingerprint, earlier + 1);
        assert(items.deep_view()[i as int] == items@[i as int]@);
        assert(fingerprint@ =~= items@[i as int].fingerprint@ + seq![':'] + decimal(
            (earlier + 1) as nat,
        ));
        let candidate = renamed(&items[i], string_from(fingerprint.as_slice()));
        proof {
            let expected = with_occurrence(
                items.deep_view()[i as int],
                count_base(items.deep_view().take(i as int), items.deep_view()[i as int].fingerprint)
                    + 1,
            );
            assert(candidate@ == expected);
            assert(numbered(items.deep_view())[i as int] == expected);
        }
        let ghost before = result.deep_view();
        result.push(candidate);
        assert(result.deep_view() =~= before.push(candidate@));
        i = i + 1;
    }
    result
}

/// The findings of one parsed source file: its numbered decision candidates and its
/// Specification definitions, both in document order.
pub fn analyze_file(tree: &SyntaxTree, language: Language, path: &str) -> (r: (
    Vec<Candidate>,
    Vec<SpecificationDefinition>,
))
    ensures
        r.0.deep_view() == numbered(tree_candidates(language, path@, tree.root, None, None, false)),
        r.1.deep_view() == tree_definitions(language, path@, tree.root),
        forall|k: int|
            0 <= k < r.0@.len() ==> has_fingerprint_form(#[trigger] r.0.deep_view()[k])
                && r.0.deep_view()[k].path == path@,
        distinct_fingerprints(r.0.deep_view()),
{
    let mut drafts: Vec<Candidate> = Vec::new();
    let mut definitions: Vec<SpecificationDefinition> = Vec::new();
    visit(&tree.root, language, path, None, None, false, &mut drafts, &mut definitions);
    assert(drafts.deep_view() =~= tree_candidates(language, path@, tree.root, None, None, false));
    assert(definitions.deep_view() =~= tree_definitions(language, path@, tree.root));
    let numbered_drafts = number_candidates(&drafts);
    proof {
        lemma_numbered_fingerprints(drafts.deep_view());
    }
    (numbered_drafts, definitions)
}

/// A construct's fingerprint, kind and excerpt do not depend on where it starts: lines
/// inserted before it move it without changing them.
pub proof fn lemma_fingerprint_ignores_position(
    language: Language,
    path: Seq<char>,
    node: SyntaxNode,
    parent: Option<Seq<char>>,
    grandparent: Option<Seq<char>>,
    inside: bool,
    row: usize,
    column: usize,
)
    ensures
        ({
            let moved = SyntaxNode { row, column, ..node };
            match (
                node_candidate(language, path, node, parent, grandparent, inside),
                node_candidate(language, path, moved, parent, grandparent, inside),
            ) {
                (Some(here), Some(there)) => here.fingerprint == there.fingerprint && here.kind
                    == there.kind && here.excerpt == there.excerpt,
                (None, None) => true,
                _ => false,
            }
        }),
{
}

proof fn lemma_count_base_same(a: Seq<CandidateView>, b: Seq<CandidateView>, base: Seq<char>)
    requires
        a.len() == b.len(),
        forall|i: int| 0 <= i < a.len() ==> (#[trigger] a[i]).fingerprint == b[i].fingerprint,
    ensures
        count_base(a, base) == count_base(b, base),
    decreases a.len(),
{
    if a.len() > 0 {
        assert forall|i: int| 0 <= i < a.drop_last().len() implies (
        #[trigger] a.drop_last()[i]).fingerprint == b.drop_last()[i].fingerprint by {
            assert(a.drop_last()[i] == a[i] && b.drop_last()[i] == b[i]);
        }
        lemma_count_base_same(a.drop_last(), b.drop_last(), base);
        assert(a.last() == a[a.len() - 1] && b.last() == b[b.len() - 1]);
    }
}

/// Numbering within a file looks only at the fingerprint bases in document order: candidates
/// whose bases are unchanged keep their fingerprints when their lines and columns move.
pub proof fn lemma_numbering_ignores_positions(a: Seq<CandidateView>, b: Seq<CandidateView>)
    requires
        a.len() == b.len(),
        forall|i: int| 0 <= i < a.len() ==> (#[trigger] a[i]).fingerprint == b[i].fingerprint,
    ensures
        forall|i: int|
            0 <= i < a.len() ==> (#[trigger] numbered(a)[i]).fingerprint == numbered(
                b,
            )[i].fingerprint,
{
    assert forall|i: int| 0 <= i < a.len() implies (#[trigger] numbered(a)[i]).fingerprint
        == numbered(b)[i].fingerprint by {
        assert forall|j: int| 0 <= j < a.take(i).len() implies (
        #[trigger] a.take(i)[j]).fingerprint == b.take(i)[j].fingerprint by {
            assert(a.take(i)[j] == a[j] && b.take(i)[j] == b[j]);
        }
        lemma_count_base_same(a.take(i), b.take(i), a[i].fingerprint);
    }
}

} // verus!
