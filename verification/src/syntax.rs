//! The boundary to tree-sitter: parsing a source file, compiling a query, and collecting the
//! query's matches as plain records.
//!
//! A `SyntaxTree` and a `CompiledQuery` are made only here, by the functions that parse and
//! compile, and keep the language and the text they were made from; so what a query finds
//! over a tree is a function of the language, the query text and the source.
use vstd::prelude::*;
use streaming_iterator::StreamingIterator;
use tree_sitter::{Parser, Query, QueryCursor, Tree};
use crate::parser::{CaptureRecord, Language};

verus! {

#[verifier::external_type_specification]
#[verifier::external_body]
pub struct ExTree(tree_sitter::Tree);

#[verifier::external_type_specification]
#[verifier::external_body]
pub struct ExQuery(tree_sitter::Query);

/// A syntax tree, with the language whose grammar parsed it and the source it was parsed from.
pub struct SyntaxTree {
    tree: Tree,
    language: Language,
    source: String,
}

/// A query compiled for a language's grammar, with its text.
pub struct CompiledQuery {
    query: Query,
    language: Language,
    text: String,
}

impl SyntaxTree {
    /// The language whose grammar parsed the tree.
    pub closed spec fn spec_language(&self) -> Language {
        self.language
    }

    /// The source the tree was parsed from.
    pub closed spec fn spec_source(&self) -> Seq<char> {
        self.source@
    }

    /// The language whose grammar parsed the tree.
    pub fn language(&self) -> (l: Language)
        ensures
            l == self.spec_language(),
    {
        self.language
    }
}

impl CompiledQuery {
    /// The language the query was compiled for.
    pub closed spec fn spec_language(&self) -> Language {
        self.language
    }

    /// The text of the query.
    pub closed spec fn spec_text(&self) -> Seq<char> {
        self.text@
    }
}

/// What compiling `query` for the grammar of `language` gives: the query's capture names,
/// indexed by capture index, or the description of the error.
pub uninterp spec fn ts_compiled(language: Language, query: Seq<char>) -> Result<Seq<String>, Seq<char>>;

/// The matches of `query` over the tree that the grammar of `language` parses from `source`,
/// in the order the query cursor yields them, each as the records of its captures.
pub uninterp spec fn ts_matches(language: Language, query: Seq<char>, source: Seq<char>) -> Seq<Vec<CaptureRecord>>;

/// Parses `source` with a new tree-sitter `Parser` set to the grammar of `language`
/// (`Parser::set_language`, then `Parser::parse` with no previous tree).
///
/// Claims that a tree is always parsed: `set_language` accepts grammars of ABI versions 13 to
/// 15, those of the four grammars are 14 and 15, and `parse` yields no tree only without a
/// language, or after a timeout or a cancellation, neither of which a new parser has.
#[verifier::external_body]
pub fn parse_tree(language: Language, source: &str) -> (r: Option<SyntaxTree>)
    ensures
        r is Some,
        match r {
            Some(t) => t.spec_language() == language && t.spec_source() == source@,
            None => true,
        },
{
    let grammar: tree_sitter::Language = match language {
        Language::Rust => tree_sitter_rust::LANGUAGE.into(),
        Language::TypeScript => tree_sitter_typescript::LANGUAGE_TYPESCRIPT.into(),
        Language::Tsx => tree_sitter_typescript::LANGUAGE_TSX.into(),
        Language::Python => tree_sitter_python::LANGUAGE.into(),
    };
    let mut parser = Parser::new();
    parser.set_language(&grammar).ok()?;
    let tree = parser.parse(source, None)?;
    Some(SyntaxTree { tree, language, source: source.to_owned() })
}

/// Compiles `query` with `Query::new` for the grammar of `language`, and reads its capture
/// names (`Query::capture_names`); on failure, the error's `Display`. The outcome depends on
/// the grammar and the query text alone.
#[verifier::external_body]
pub fn compile_query(language: Language, query: &str) -> (r: Result<(CompiledQuery, Vec<String>), String>)
    ensures
        match r {
            Ok((q, names)) => q.spec_language() == language && q.spec_text() == query@
                && ts_compiled(language, query@) == Ok::<Seq<String>, Seq<char>>(names@),
            Err(e) => ts_compiled(language, query@) == Err::<Seq<String>, Seq<char>>(e@),
        },
{
    let grammar: tree_sitter::Language = match language {
        Language::Rust => tree_sitter_rust::LANGUAGE.into(),
        Language::TypeScript => tree_sitter_typescript::LANGUAGE_TYPESCRIPT.into(),
        Language::Tsx => tree_sitter_typescript::LANGUAGE_TSX.into(),
        Language::Python => tree_sitter_python::LANGUAGE.into(),
    };
    let q = Query::new(&grammar, query).map_err(|e| e.to_string())?;
    let names = q.capture_names().iter().map(|n| n.to_string()).collect();
    Ok((CompiledQuery { query: q, language, text: query.to_owned() }, names))
}

/// Runs `QueryCursor::matches` of the query over the whole tree, turning each match into the
/// records of its captures. The matches depend on the language, the query text and the
/// source alone.
#[verifier::external_body]
pub fn query_matches(query: &CompiledQuery, tree: &SyntaxTree) -> (r: Vec<Vec<CaptureRecord>>)
    requires
        query.spec_language() == tree.spec_language(),
    ensures
        r@ == ts_matches(tree.spec_language(), query.spec_text(), tree.spec_source()),
{
    let (mut cursor, bytes) = (QueryCursor::new(), tree.source.as_bytes());
    let mut found = cursor.matches(&query.query, tree.tree.root_node(), bytes);
    let mut out = Vec::new();
    while let Some(m) = found.next() {
        out.push(m.captures.iter().map(|c| { let n = c.node; CaptureRecord {
            index: c.index, text: n.utf8_text(bytes).ok().map(|t| t.to_owned()),
            start_row: n.start_position().row, end_row: n.end_position().row,
            start_byte: n.start_byte(), end_byte: n.end_byte(),
            parent_kind: n.parent().map(|p| p.kind().to_owned()),
        } }).collect());
    }
    out
}

} // verus!
