//! The trusted boundary to the syntax parser.
//!
//! Parsing is done by the `tree-sitter` runtime and its per-language
//! grammars.  A parse is a pure function of the grammar, the query source
//! and the content, so its two results carry names — [`spec_ts_names`]
//! and [`spec_ts_matches`] — that the wrappers' contracts apply: nothing
//! is assumed about what the results hold, only that equal inputs name
//! equal results.  The verified chunker bounds-checks every capture index
//! and byte range it reads from them.

use streaming_iterator::StreamingIterator;
use tree_sitter::{Language, Parser, Query, QueryCursor};
use tree_sitter_javascript::LANGUAGE as JS_LANGUAGE;
use tree_sitter_python::LANGUAGE as PY_LANGUAGE;
use tree_sitter_rust::LANGUAGE as RS_LANGUAGE;
use tree_sitter_typescript::LANGUAGE_TYPESCRIPT as TS_LANGUAGE;
use vstd::prelude::*;
use vstd::string::StringSliceAdditionalSpecFns;

use crate::chunker::Lang;

verus! {

/// One captured node of a query match: the capture's name index and the
/// node's byte range, as reported by the parser.
#[derive(Clone, Copy, Debug, PartialEq, Eq, Structural)]
pub struct RawCapture {
    pub name_index: usize,
    pub start_byte: usize,
    pub end_byte: usize,
}

/// One match of a structural query.
#[derive(Debug)]
pub struct RawMatch {
    pub captures: Vec<RawCapture>,
}

/// The capture names of `query_source` compiled against the grammar of
/// `lang`, in index order; `None` when the query does not compile or the
/// parser refuses the grammar.  A function of its arguments alone.
pub uninterp spec fn spec_ts_names(lang: Lang, query_source: Seq<u8>) -> Option<Seq<Seq<u8>>>;

/// The matches of `query_source` over the parse of `content` under the
/// grammar of `lang`, each match a sequence of captures in capture order;
/// `None` when the grammar is refused, the parse yields no tree, or the
/// query does not compile.  A function of its arguments alone.
pub uninterp spec fn spec_ts_matches(lang: Lang, query_source: Seq<u8>, content: Seq<u8>) -> Option<
    Seq<Seq<RawCapture>>,
>;

/// A capture record, as the trusted layer assembles it from a query
/// capture's fields.
pub fn raw_capture(index: u32, start_byte: usize, end_byte: usize) -> (r: RawCapture)
    ensures
        r == (RawCapture { name_index: index as usize, start_byte, end_byte }),
{
    RawCapture { name_index: index as usize, start_byte, end_byte }
}

/// A match record over its captures.
pub fn raw_match(captures: Vec<RawCapture>) -> (r: RawMatch)
    ensures
        r == (RawMatch { captures }),
{
    RawMatch { captures }
}

/// Relies on tree_sitter::Query::new and Query::capture_names: compile
/// the query against the grammar and return its capture names, in index
/// order, as byte strings.
#[verifier::external_body]
pub fn ts_query_names(lang: Lang, query_source: &str) -> (r: Option<Vec<Vec<u8>>>)
    ensures
        match r {
            Some(names) => spec_ts_names(lang, query_source.spec_bytes()) == Some(
                names@.map_values(|n: Vec<u8>| n@),
            ),
            None => spec_ts_names(lang, query_source.spec_bytes()) is None,
        },
{
    // one grammar per Lang variant, in declaration order
    let language: Language = [RS_LANGUAGE, PY_LANGUAGE, JS_LANGUAGE, TS_LANGUAGE][lang as usize].into();
    let query = Query::new(&language, query_source).ok()?;
    Some(query.capture_names().iter().map(|s| s.as_bytes().to_vec()).collect())
}

/// Relies on tree_sitter::Parser::parse and QueryCursor::matches: parse
/// `content` under the grammar of `lang`, run the compiled query over the
/// whole tree, and return every match's captures in stream order.  The
/// queries this crate runs carry no text predicates, so the match stream
/// never reads `content` beyond handing out node ranges.
#[verifier::external_body]
pub fn ts_query_matches(lang: Lang, query_source: &str, content: &[u8]) -> (r: Option<
    Vec<RawMatch>,
>)
    ensures
        match r {
            Some(ms) => spec_ts_matches(lang, query_source.spec_bytes(), content@) == Some(
                ms@.map_values(|m: RawMatch| m.captures@),
            ),
            None => spec_ts_matches(lang, query_source.spec_bytes(), content@) is None,
        },
{
    // one grammar per Lang variant, in declaration order
    let language: Language = [RS_LANGUAGE, PY_LANGUAGE, JS_LANGUAGE, TS_LANGUAGE][lang as usize].into();
    let mut parser = Parser::new();
    parser.set_language(&language).ok()?;
    let tree = parser.parse(content, None)?;
    let query = Query::new(&language, query_source).ok()?;
    let (mut cursor, mut out) = (QueryCursor::new(), Vec::new());
    let mut ms = cursor.matches(&query, tree.root_node(), content);
    while let Some(m) = ms.next() { out.push(raw_match(m.captures().iter().map(|c| raw_capture(c.index, c.node.start_byte(), c.node.end_byte())).collect())) }
    Some(out)
}

} // verus!
