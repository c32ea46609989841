//! Parsing a source text and matching the import query of its language
//! against the syntax tree.

use crate::lang::Lang;
use std::ops::Range;
use streaming_iterator::StreamingIterator;
use tree_sitter::{Language, Parser, Query, QueryCursor};
use tree_sitter_cpp::LANGUAGE as CPP;
use tree_sitter_javascript::LANGUAGE as JAVASCRIPT;
use tree_sitter_python::LANGUAGE as PYTHON;
use tree_sitter_rust::LANGUAGE as RUST;
use vstd::prelude::*;

verus! {

/// One captured node of a match: the name of the capture in the query and
/// the bytes of the source that the node covers.
#[derive(Debug)]
pub struct Capture {
    pub name: String,
    pub start: usize,
    pub end: usize,
}

/// One match of a query: the pattern of the query that matched, counted from
/// 0, and the nodes it captured.
#[derive(Debug)]
pub struct PatternMatch {
    pub pattern: usize,
    pub captures: Vec<Capture>,
}

impl Capture {
    /// The capture called `name` of the node that covers the bytes of
    /// `range`.
    pub fn new(name: &str, range: Range<usize>) -> (r: Capture)
        ensures
            r.name@ == name@,
            r.start == range.start,
            r.end == range.end,
    {
        Capture { name: name.to_owned(), start: range.start, end: range.end }
    }
}

impl PatternMatch {
    /// The match of pattern number `pattern` that captured `captures`.
    pub fn new(pattern: usize, captures: Vec<Capture>) -> (r: PatternMatch)
        ensures
            r.pattern == pattern,
            r.captures == captures,
    {
        PatternMatch { pattern, captures }
    }
}

/// The matches that tree-sitter reports for `query` on the tree that the
/// grammar of `lang` gives for `text`, in its order; `None` where the
/// grammar or the query cannot be set up or the parser gives no tree.
pub uninterp spec fn syntax_matches(lang: Lang, query: Seq<char>, text: Seq<char>) -> Option<
    Vec<PatternMatch>,
>;

/// Parses `text` with the tree-sitter grammar that belongs to `lang` (the
/// `LANGUAGE` of `tree_sitter_javascript`, `tree_sitter_python`,
/// `tree_sitter_rust` or `tree_sitter_cpp`) and runs `query` on the tree
/// (`Parser::set_language`, `Parser::parse`, `Query::new`,
/// `QueryCursor::matches`), copying out of each match its pattern index
/// and, of each capture, its name and byte range.
///
/// Trusted: that the outcome depends on the language, the query and the
/// text alone. Nothing is claimed of which nodes match.
#[verifier::external_body]
fn run_query(lang: Lang, query: &str, text: &str) -> (r: Option<Vec<PatternMatch>>)
    ensures
        r == syntax_matches(lang, query@, text@),
{
    let language = Language::new(match lang {
        Lang::JavaScript => JAVASCRIPT,
        Lang::Python => PYTHON,
        Lang::Rust => RUST,
        Lang::Cpp => CPP,
    });
    let mut parser = Parser::new();
    parser.set_language(&language).ok()?;
    let query = Query::new(&language, query).ok()?;
    let tree = parser.parse(text, None)?;
    let mut cursor = QueryCursor::new();
    let found = cursor.matches(&query, tree.root_node(), text.as_bytes());
    Some(found.map_deref(|m| PatternMatch::new(m.pattern_index, m.captures().iter().map(|c| Capture::new(query.capture_names()[c.index as usize], c.node.byte_range())).collect())).collect())
}

/// Parses `text` with the grammar of `lang` and matches `query` against the
/// tree. `None` means that the language could not be set up or the text
/// gave no tree.
pub fn find_matches(lang: Lang, query: &str, text: &str) -> (r: Option<Vec<PatternMatch>>)
    ensures
        r == syntax_matches(lang, query@, text@),
{
    run_query(lang, query, text)
}

/// Finds the source of a static `import` and the argument of a call of
/// `require`; both are captured as `path`.
pub const JAVASCRIPT_IMPORTS: &'static str =
    "(import_statement source: (string (string_fragment) @path))\n(call_expression function: (identifier) @_fn arguments: (arguments (string (string_fragment) @path)) (#eq? @_fn \"require\"))";

/// Pattern 0 finds `import a.b`, pattern 1 `from a.b import ..` and
/// `from .a import ..` (both capture `module`), pattern 2 `from . import a`
/// (capturing the dots as `dots` and each imported name as `name`).
pub const PYTHON_IMPORTS: &'static str =
    "(import_statement (dotted_name) @module)\n(import_from_statement module_name: [(dotted_name) @module (relative_import (dotted_name) . ) @module])\n(import_from_statement module_name: (relative_import) @dots name: [(dotted_name) @name (aliased_import name: (dotted_name) @name)] (#match? @dots \"^\\\\.+$\"))";

/// Pattern 0 finds `mod name`, pattern 1 `use path` where the path is one
/// name or a scoped name; both capture `module`.
pub const RUST_IMPORTS: &'static str =
    "(mod_item name: (identifier) @module)\n(use_declaration argument: [(identifier) @module (scoped_identifier) @module])";

/// Finds `#include "path"`, capturing the path as `header`.
pub const CPP_IMPORTS: &'static str =
    "(preproc_include path: (string_literal (string_content) @header))";

/// The query that finds the imports of `lang`.
pub open spec fn query_text(lang: Lang) -> Seq<char> {
    match lang {
        Lang::JavaScript => JAVASCRIPT_IMPORTS@,
        Lang::Python => PYTHON_IMPORTS@,
        Lang::Rust => RUST_IMPORTS@,
        Lang::Cpp => CPP_IMPORTS@,
    }
}

/// The query that finds the imports of `lang`.
pub fn import_query(lang: Lang) -> (r: &'static str)
    ensures
        r@ == query_text(lang),
{
    match lang {
        Lang::JavaScript => JAVASCRIPT_IMPORTS,
        Lang::Python => PYTHON_IMPORTS,
        Lang::Rust => RUST_IMPORTS,
        Lang::Cpp => CPP_IMPORTS,
    }
}

} // verus!
