//! Parsing source text with tree-sitter and running a query over it.
use vstd::prelude::*;

use crate::lang::LangId;
use crate::model::{LineColumn, SourceRange};
use crate::scanner::{Capture, QueryMatch, SyntaxNode};
use tree_sitter::{Parser, Query, QueryCursor, StreamingIterator};

verus! {

#[verifier::external_type_specification]
#[verifier::external_body]
pub struct ExLanguage(tree_sitter::Language);

#[verifier::external_type_specification]
#[verifier::external_body]
pub struct ExNode<'tree>(tree_sitter::Node<'tree>);

#[verifier::external_type_specification]
#[verifier::external_body]
pub struct ExQueryCapture<'tree>(tree_sitter::QueryCapture<'tree>);

/// What tree-sitter gives for `source` parsed with the grammar of `id` and
/// the query `query` run over the tree: the matches in the order the query
/// cursor yields them, each capture with its capture name and its node
/// (kind, text, whether named, range, children).
pub uninterp spec fn deploy_query_matches(id: LangId, query: Seq<char>, source: Seq<u8>) -> Seq<QueryMatch>;

/// The grammar of a language: the `LANGUAGE` constant of its tree-sitter
/// grammar crate (TypeScript and TSX are the two grammars of
/// `tree-sitter-typescript`).
#[verifier::external_body]
fn grammar(id: LangId) -> tree_sitter::Language {
    match id {
        LangId::Python => tree_sitter_python::LANGUAGE.into(),
        LangId::JavaScript => tree_sitter_javascript::LANGUAGE.into(),
        LangId::TypeScript => tree_sitter_typescript::LANGUAGE_TYPESCRIPT.into(),
        LangId::Tsx => tree_sitter_typescript::LANGUAGE_TSX.into(),
        LangId::C => tree_sitter_c::LANGUAGE.into(),
        LangId::Cpp => tree_sitter_cpp::LANGUAGE.into(),
        LangId::Rust => tree_sitter_rust::LANGUAGE.into(),
        LangId::Go => tree_sitter_go::LANGUAGE.into(),
        LangId::Ruby => tree_sitter_ruby::LANGUAGE.into(),
    }
}

/// A tree-sitter `Node` and its subtree as plain values: `kind`,
/// `utf8_text` (empty when the bytes are not UTF-8), `is_named`, the byte
/// and point range, and the children in order.
#[verifier::external_body]
fn syntax_node_of(node: tree_sitter::Node, source: &[u8]) -> SyntaxNode {
    let (start, end) = (node.start_position(), node.end_position());
    let mut cursor = node.walk();
    SyntaxNode {
        kind: node.kind().to_string(),
        text: node.utf8_text(source).unwrap_or("").to_string(),
        is_named: node.is_named(),
        range: SourceRange {
            byte_start: node.start_byte(),
            byte_end: node.end_byte(),
            start: LineColumn { line: start.row, column: start.column },
            end: LineColumn { line: end.row, column: end.column },
        },
        children: node.children(&mut cursor).map(|child| syntax_node_of(child, source)).collect(),
    }
}

/// The captures of one tree-sitter query match as plain values: each
/// capture's name (from the query's capture names) and its node.
#[verifier::external_body]
fn match_of(names: &[&str], captures: &[tree_sitter::QueryCapture], source: &[u8]) -> QueryMatch {
    QueryMatch {
        captures: captures.iter().map(|c| Capture { name: names[c.index as usize].to_string(), node: syntax_node_of(c.node, source) }).collect(),
    }
}

/// Parses `source` with tree-sitter's `Parser` under the grammar of `id`,
/// compiles `query` with `Query::new` and returns the matches of
/// `QueryCursor::matches` over the tree's root (see
/// [`deploy_query_matches`]). Nothing states when tree-sitter refuses the
/// grammar, the source or the query; then there are no matches.
#[verifier::external_body]
pub(crate) fn query_matches(id: LangId, query: &str, source: &[u8]) -> (r: Vec<QueryMatch>)
    ensures
        r@ == deploy_query_matches(id, query@, source@),
{
    let (language, mut parser) = (grammar(id), Parser::new());
    let (Ok(()), Ok(q)) = (parser.set_language(&language), Query::new(&language, query)) else { return Vec::new() };
    let Some(tree) = parser.parse(source, None) else { return Vec::new() };
    let (names, mut cursor, mut out) = (q.capture_names(), QueryCursor::new(), Vec::new());
    let mut found = cursor.matches(&q, tree.root_node(), source);
    while let Some(m) = found.next() {
        out.push(match_of(names, m.captures(), source));
    }
    out
}

} // verus!
