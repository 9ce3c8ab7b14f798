//! Syntax trees: the library's own tree, and how a Tree-sitter tree becomes one.
use vstd::prelude::*;

use tree_sitter::{Language as Grammar, Node, Parser};

use crate::model::Language;

verus! {

#[verifier::external_type_specification]
#[verifier::external_body]
pub struct ExNode<'tree>(Node<'tree>);

/// One node of a parsed source file, as plain values.
pub struct SyntaxNode {
    /// The node's grammar type, such as `if_statement`.
    pub kind: String,
    /// Named nodes come from grammar rules; the others are literal tokens.
    pub named: bool,
    /// The field under which the parent holds this node, if any.
    pub field: Option<String>,
    /// The source text that the node spans.
    pub text: String,
    /// Zero-based row of the node's first character.
    pub row: usize,
    /// Zero-based column (in bytes) of the node's first character.
    pub column: usize,
    pub children: Vec<SyntaxNode>,
}

pub struct SyntaxTree {
    pub root: SyntaxNode,
    /// Whether the tree holds an `ERROR` or `MISSING` node.
    pub has_error: bool,
}

/// Index of the first child at or after `i` that the parent holds under `field`, or -1.
pub open spec fn field_index(node: SyntaxNode, field: Seq<char>, i: int) -> int
    decreases node.children@.len() - i,
{
    if i < 0 || i >= node.children@.len() {
        -1
    } else if node.children@[i].field.deep_view() == Some(field) {
        i
    } else {
        field_index(node, field, i + 1)
    }
}

/// `Node::child_by_field_name`.
pub open spec fn field_child(node: SyntaxNode, field: Seq<char>) -> Option<SyntaxNode> {
    let i = field_index(node, field, 0);
    if i >= 0 {
        Some(node.children@[i])
    } else {
        None
    }
}

pub proof fn lemma_field_index_bounds(node: SyntaxNode, field: Seq<char>, i: int)
    requires
        0 <= i,
    ensures
        field_index(node, field, i) == -1 || (i <= field_index(node, field, i)
            < node.children@.len() && node.children@[field_index(
            node,
            field,
            i,
        )].field.deep_view() == Some(field)),
    decreases node.children@.len() - i,
{
    if i < node.children@.len() && node.children@[i].field.deep_view() != Some(field) {
        lemma_field_index_bounds(node, field, i + 1);
    }
}

fn has_field(child: &SyntaxNode, field: &str) -> (r: bool)
    ensures
        r == (child.field.deep_view() == Some(field@)),
{
    match &child.field {
        Some(name) => {
            let chars = crate::text::to_chars(name.as_str());
            crate::text::is_text(chars.as_slice(), field)
        },
        None => false,
    }
}

/// Position of the first child held under `field`.
pub fn field_position(node: &SyntaxNode, field: &str) -> (r: Option<usize>)
    ensures
        match r {
            Some(i) => field_index(*node, field@, 0) == i,
            None => field_index(*node, field@, 0) == -1,
        },
        r matches Some(i) ==> i < node.children@.len(),
{
    let mut i: usize = 0;
    while i < node.children.len()
        invariant
            i <= node.children@.len(),
            field_index(*node, field@, 0) == field_index(*node, field@, i as int),
        decreases node.children@.len() - i,
    {
        if has_field(&node.children[i], field) {
            return Some(i);
        }
        i = i + 1;
    }
    None
}

/// Whether the parser accepts the Tree-sitter grammar of `language`.
pub uninterp spec fn grammar_accepted(language: Language) -> bool;

/// The syntax tree that Tree-sitter's parser, given the grammar of `language`, builds for
/// `source`, node for node; `None` where the parser returns no tree.
pub uninterp spec fn syntax_tree_of(language: Language, source: Seq<char>) -> Option<SyntaxTree>;

/// Copies a Tree-sitter node, held under `field`, and every node below it, taking each node's
/// text from `source` (the empty string where its byte range is not text of `source`).
#[verifier::external_body]
fn copy_node(node: Node, field: Option<&str>, source: &str) -> SyntaxNode {
    let mut children = Vec::new();
    let mut cursor = node.walk();
    for (index, child) in node.children(&mut cursor).enumerate() {
        children.push(copy_node(child, node.field_name_for_child(index as u32), source));
    }
    SyntaxNode {
        kind: node.kind().to_owned(),
        named: node.is_named(),
        field: field.map(str::to_owned),
        text: source.get(node.byte_range()).unwrap_or_default().to_owned(),
        row: node.start_position().row,
        column: node.start_position().column,
        children,
    }
}

/// Calls `Parser::set_language` with the Tree-sitter grammar of `language` (the `LANGUAGE`
/// of `tree_sitter_python`, `tree_sitter_swift` or `tree_sitter_rust`), then `Parser::parse`
/// on the whole of `source`, and copies the tree it returns. `None` exactly when the grammar
/// is refused; otherwise the named tree of the source.
#[verifier::external_body]
fn parse_tree(language: Language, source: &str) -> (r: Option<Option<SyntaxTree>>)
    ensures
        r is None <==> !grammar_accepted(language),
        r matches Some(tree) ==> tree == syntax_tree_of(language, source@),
{
    let grammar: Grammar = match language {
        Language::Python => tree_sitter_python::LANGUAGE.into(),
        Language::Swift => tree_sitter_swift::LANGUAGE.into(),
        Language::Rust => tree_sitter_rust::LANGUAGE.into(),
    };
    let mut parser = Parser::new();
    parser.set_language(&grammar).ok()?;
    match parser.parse(source, None) {
        Some(tree) => {
            let root = tree.root_node();
            Some(Some(SyntaxTree { has_error: root.has_error(), root: copy_node(root, None, source) }))
        },
        None => Some(None),
    }
}

/// The one-based form of a zero-based position; the largest position stays as it is.
pub open spec fn one_based_position(position: usize) -> usize {
    if position < usize::MAX {
        (position + 1) as usize
    } else {
        position
    }
}

pub fn one_based(position: usize) -> (r: usize)
    ensures
        r == one_based_position(position),
{
    if position < usize::MAX {
        position + 1
    } else {
        position
    }
}

pub enum ParseOutcome {
    /// The parser did not accept the language's grammar.
    GrammarRejected,
    /// The parser returned no syntax tree.
    NoTree,
    Parsed(SyntaxTree),
}

/// What parsing `source` with the grammar of `language` gives.
pub open spec fn parse_outcome(language: Language, source: Seq<char>) -> ParseOutcome {
    if !grammar_accepted(language) {
        ParseOutcome::GrammarRejected
    } else {
        match syntax_tree_of(language, source) {
            Some(tree) => ParseOutcome::Parsed(tree),
            None => ParseOutcome::NoTree,
        }
    }
}

/// Parses `source` with the Tree-sitter grammar of `language`.
pub(crate) fn parse_source(language: Language, source: &str) -> (r: ParseOutcome)
    ensures
        r == parse_outcome(language, source@),
{
    match parse_tree(language, source) {
        None => ParseOutcome::GrammarRejected,
        Some(Some(tree)) => ParseOutcome::Parsed(tree),
        Some(None) => ParseOutcome::NoTree,
    }
}

} // verus!
