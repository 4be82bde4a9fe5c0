//! The chunker: turn a source file into syntactic chunks.
//!
//! A chunk is one top-level definition (function, impl block, trait, class)
//! captured by a structural query over the file's syntax tree, together with
//! its leading comments.  The parse itself is done by the trusted layer in
//! [`crate::parsing`]; everything the chunker reads out of a parse — capture
//! indexes and byte ranges — is bounds-checked here, so the guarantees below
//! hold whatever the parser returns:
//!
//! * every chunk's text is the verbatim byte range of the file it names;
//! * line numbers are the 1-based inclusive lines of that range;
//! * no two chunks of one file share a content hash;
//! * chunks are ordered by start byte.

use vstd::prelude::*;
use vstd::string::StringSliceAdditionalSpecFns;

use crate::db::compare_bytes;
use crate::hashing::{chunk_hash, spec_chunk_hash};
use crate::parsing::{RawCapture, RawMatch};

verus! {

/// Why a file could not be chunked.
#[derive(Clone, Copy, Debug, PartialEq, Eq, Structural)]
pub enum ChunkError {
    /// The file's extension names no recognized language.
    UnsupportedLanguage,
    /// The parser produced no syntax tree, or its query failed.
    ParseError,
}

// ---------------------------------------------------------------------------
// Line numbers
// ---------------------------------------------------------------------------

/// The byte positions of every newline of `s`, in order.
pub open spec fn newline_positions(s: Seq<u8>) -> Seq<usize>
    decreases s.len(),
{
    if s.len() == 0 {
        Seq::empty()
    } else if s.last() == 10 {
        newline_positions(s.drop_last()).push((s.len() - 1) as usize)
    } else {
        newline_positions(s.drop_last())
    }
}

/// The line-start table of `s`: every newline position, then the length of
/// `s` as a final sentinel.
pub open spec fn spec_line_starts(s: Seq<u8>) -> Seq<usize> {
    newline_positions(s).push(s.len() as usize)
}

/// The first position of `r` holding a value at least `byte`; `r.len()` if
/// there is none.
pub open spec fn first_at_least(r: Seq<usize>, byte: usize) -> int
    decreases r.len(),
{
    if r.len() == 0 {
        0
    } else if r.first() >= byte {
        0
    } else {
        1 + first_at_least(r.drop_first(), byte)
    }
}

/// The 1-based line number of byte offset `byte` within `s`.
pub open spec fn spec_line_of(s: Seq<u8>, byte: usize) -> int {
    1 + first_at_least(spec_line_starts(s), byte)
}

proof fn lemma_newline_positions_push(s: Seq<u8>, x: u8)
    ensures
        newline_positions(s.push(x)) == (
            if x == 10 {
                newline_positions(s).push(s.len() as usize)
            } else {
                newline_positions(s)
            }
        ),
{
    assert(s.push(x).drop_last() =~= s);
    assert(s.push(x).last() == x);
}

/// Every newline position of `s` lies within `s` and holds a newline.
pub proof fn lemma_newline_positions_wf(s: Seq<u8>)
    requires
        s.len() <= usize::MAX,
    ensures
        forall|i: int| 0 <= i < newline_positions(s).len()
            ==> (#[trigger] newline_positions(s)[i]) < s.len()
                && s[newline_positions(s)[i] as int] == 10,
        forall|i: int, j: int| 0 <= i < j < newline_positions(s).len()
            ==> newline_positions(s)[i] < newline_positions(s)[j],
    decreases s.len(),
{
    if s.len() > 0 {
        lemma_newline_positions_wf(s.drop_last());
        let prefix = newline_positions(s.drop_last());
        let np = newline_positions(s);
        assert forall|i: int| 0 <= i < np.len() implies (#[trigger] np[i]) < s.len()
            && s[np[i] as int] == 10 by {
            if i < prefix.len() {
                assert(np[i] == prefix[i]);
                assert(prefix[i] < s.drop_last().len());
                assert(s.drop_last()[prefix[i] as int] == 10);
                assert(s.drop_last()[prefix[i] as int] == s[prefix[i] as int]);
            } else {
                assert(s.last() == 10);
                assert(np[i] == (s.len() - 1) as usize);
            }
        }
        assert forall|i: int, j: int| 0 <= i < j < np.len() implies np[i] < np[j] by {
            if j < prefix.len() {
                assert(np[i] == prefix[i] && np[j] == prefix[j]);
            } else {
                assert(s.last() == 10);
                assert(np[i] == prefix[i]);
                assert(prefix[i] < s.drop_last().len());
                assert(np[j] == (s.len() - 1) as usize);
            }
        }
    }
}

/// The line-start table, computed: every newline position of `content`
/// followed by the length sentinel.
pub fn compute_line_starts(content: &[u8]) -> (r: Vec<usize>)
    ensures
        r@ == spec_line_starts(content@),
{
    let mut r: Vec<usize> = Vec::new();
    let mut i: usize = 0;
    while i < content.len()
        invariant
            i <= content@.len(),
            r@ == newline_positions(content@.subrange(0, i as int)),
        decreases content@.len() - i,
    {
        proof {
            assert(content@.subrange(0, i + 1) =~= content@.subrange(0, i as int).push(
                content@[i as int],
            ));
            lemma_newline_positions_push(content@.subrange(0, i as int), content@[i as int]);
        }
        if content[i] == 10 {
            r.push(i);
        }
        i = i + 1;
    }
    proof {
        assert(content@.subrange(0, content@.len() as int) =~= content@);
    }
    r.push(content.len());
    r
}

proof fn lemma_first_at_least_at(r: Seq<usize>, byte: usize, i: int)
    requires
        0 <= i <= r.len(),
        forall|j: int| 0 <= j < i ==> (#[trigger] r[j]) < byte,
        i < r.len() ==> r[i] >= byte,
    ensures
        first_at_least(r, byte) == i,
    decreases r.len(),
{
    if r.len() == 0 {
    } else if r.first() >= byte {
        assert(i <= 0) by {
            if i > 0 {
                assert(r[0] < byte);
            }
        }
    } else {
        assert(r[0] < byte);
        assert(i >= 1);
        let rest = r.drop_first();
        assert forall|j: int| 0 <= j < i - 1 implies (#[trigger] rest[j]) < byte by {
            assert(rest[j] == r[j + 1]);
        }
        if i - 1 < rest.len() {
            assert(rest[i - 1] == r[i]);
        }
        lemma_first_at_least_at(rest, byte, i - 1);
    }
}

/// The 1-based line number of `byte`, looked up in a line-start table.
pub fn line_of(line_starts: &Vec<usize>, byte: usize) -> (line: usize)
    requires
        line_starts@.len() < usize::MAX,
    ensures
        line == 1 + first_at_least(line_starts@, byte),
{
    let mut i: usize = 0;
    while i < line_starts.len()
        invariant
            i <= line_starts@.len(),
            forall|j: int| 0 <= j < i ==> (#[trigger] line_starts@[j]) < byte,
        decreases line_starts@.len() - i,
    {
        if line_starts[i] >= byte {
            proof {
                lemma_first_at_least_at(line_starts@, byte, i as int);
            }
            return 1 + i;
        }
        i = i + 1;
    }
    proof {
        lemma_first_at_least_at(line_starts@, byte, line_starts@.len() as int);
    }
    1 + line_starts.len()
}

// ---------------------------------------------------------------------------
// Path extensions and languages
// ---------------------------------------------------------------------------

/// Is `d` the position of the dot that begins the extension of `path`: the
/// last dot, inside the final path component, and not that component's
/// first byte?
pub open spec fn is_ext_dot(path: Seq<u8>, d: int) -> bool {
    &&& 0 < d < path.len()
    &&& path[d] == 46
    &&& path[d - 1] != 47
    &&& forall|j: int| d < j < path.len() ==> path[j] != 46 && path[j] != 47
}

/// The extension of `path`: the bytes after the final dot of the final
/// component, where a dot that starts the component begins no extension.
pub open spec fn spec_extension(path: Seq<u8>) -> Option<Seq<u8>> {
    if exists|d: int| is_ext_dot(path, d) {
        Some(path.subrange((choose|d: int| is_ext_dot(path, d)) + 1, path.len() as int))
    } else {
        None
    }
}

/// At most one position can begin the extension.
pub proof fn lemma_ext_dot_unique(path: Seq<u8>, d1: int, d2: int)
    requires
        is_ext_dot(path, d1),
        is_ext_dot(path, d2),
    ensures
        d1 == d2,
{
    if d1 < d2 {
        assert(path[d2] != 46);
    }
    if d2 < d1 {
        assert(path[d1] != 46);
    }
}

/// The extension of `path`, or `None` if it has none.
pub fn extension_of(path: &[u8]) -> (r: Option<Vec<u8>>)
    ensures
        match r {
            Some(e) => spec_extension(path@) == Some(e@),
            None => spec_extension(path@) is None,
        },
{
    if path.len() == 0 {
        return None;
    }
    let mut i: usize = path.len();
    while i > 0
        invariant
            i <= path@.len(),
            forall|j: int| i <= j < path@.len() ==> path@[j] != 46 && path@[j] != 47,
        decreases i,
    {
        let c = path[i - 1];
        if c == 46 {
            let d = i - 1;
            if d > 0 && path[d - 1] != 47 {
                proof {
                    assert(is_ext_dot(path@, d as int));
                    let dd = choose|dd: int| is_ext_dot(path@, dd);
                    lemma_ext_dot_unique(path@, dd, d as int);
                }
                let ext = vstd::slice::slice_to_vec(
                    vstd::slice::slice_subrange(path, d + 1, path.len()),
                );
                return Some(ext);
            } else {
                proof {
                    assert forall|dd: int| !is_ext_dot(path@, dd) by {
                        if is_ext_dot(path@, dd) {
                            if dd < d as int {
                                assert(path@[d as int] == 46);
                            }
                            if dd > d as int {
                                assert(path@[dd] != 46);
                            }
                            assert(dd == d as int);
                        }
                    }
                }
                return None;
            }
        }
        if c == 47 {
            proof {
                let d = i - 1;
                assert forall|dd: int| !is_ext_dot(path@, dd) by {
                    if is_ext_dot(path@, dd) {
                        if dd <= d as int {
                            assert(path@[d as int] != 46 && path@[d as int] != 47 || dd == d as int);
                        }
                    }
                }
            }
            return None;
        }
        i = i - 1;
    }
    proof {
        assert forall|dd: int| !is_ext_dot(path@, dd) by {
            if is_ext_dot(path@, dd) {
                assert(path@[dd] != 46);
            }
        }
    }
    None
}

/// A recognized source language.
#[derive(Clone, Copy, Debug, PartialEq, Eq, Structural)]
pub enum Lang {
    Rust,
    Python,
    JavaScript,
    TypeScript,
}

/// The language an extension names, if any.
pub open spec fn spec_language_for(ext: Seq<u8>) -> Option<Lang> {
    if ext == seq![114u8, 115u8] {
        Some(Lang::Rust)
    } else if ext == seq![112u8, 121u8] {
        Some(Lang::Python)
    } else if ext == seq![106u8, 115u8] {
        Some(Lang::JavaScript)
    } else if ext == seq![116u8, 115u8] {
        Some(Lang::TypeScript)
    } else {
        None
    }
}

/// The language of a file path: the language of its extension.
pub open spec fn spec_language_of_path(path: Seq<u8>) -> Option<Lang> {
    match spec_extension(path) {
        Some(e) => spec_language_for(e),
        None => None,
    }
}

// ---------------------------------------------------------------------------
// Chunks
// ---------------------------------------------------------------------------

/// One syntactic chunk of a source file.
#[derive(Debug)]
pub struct CodeChunk {
    /// The verbatim bytes of the captured definition.
    pub content: Vec<u8>,
    pub start_byte: usize,
    pub end_byte: usize,
    /// 1-based inclusive line numbers.
    pub start_line: usize,
    pub end_line: usize,
    /// The capture name of the definition: `function`, `impl`, `trait`, ...
    pub kind: Vec<u8>,
    /// The comment group immediately preceding the definition, one newline
    /// after each comment.
    pub leading_comments: Vec<u8>,
    /// The name of the enclosing unit, for sub-chunks of a larger one.
    pub parent_name: Option<Vec<u8>>,
}

impl CodeChunk {
    /// The chunk's content hash: the hash of its text combined with the
    /// hash of its kind.
    pub fn hash(&self) -> (h: u64)
        ensures
            h == spec_chunk_hash(self.content@, self.kind@),
    {
        chunk_hash(self.content.as_slice(), self.kind.as_slice())
    }
}

/// The content hash of a chunk, as a spec value.
pub open spec fn spec_hash_of(c: CodeChunk) -> u64 {
    spec_chunk_hash(c.content@, c.kind@)
}

/// Is `c` a faithful chunk of `content`: its text is the byte range it
/// names, and its line numbers are the 1-based lines of that range?
pub open spec fn chunk_wf(c: CodeChunk, content: Seq<u8>) -> bool {
    &&& c.start_byte < c.end_byte <= content.len()
    &&& c.content@ == content.subrange(c.start_byte as int, c.end_byte as int)
    &&& c.start_line == spec_line_of(content, c.start_byte)
    &&& c.end_line == spec_line_of(content, c.end_byte)
    &&& c.parent_name is None
}

/// The capture name that marks a leading comment.
pub open spec fn spec_comment_name() -> Seq<u8> {
    seq![99u8, 111u8, 109u8, 109u8, 101u8, 110u8, 116u8]
}

/// The capture name `comment`, as bytes.
fn make_comment_name() -> (r: Vec<u8>)
    ensures
        r@ == spec_comment_name(),
{
    let mut r: Vec<u8> = Vec::new();
    r.push(99);
    r.push(111);
    r.push(109);
    r.push(109);
    r.push(101);
    r.push(110);
    r.push(116);
    proof {
        assert(r@ =~= spec_comment_name());
    }
    r
}

/// No two chunks share a content hash.
pub open spec fn distinct_chunk_hashes(cs: Seq<CodeChunk>) -> bool {
    forall|i: int, j: int| 0 <= i < j < cs.len()
        ==> spec_hash_of(#[trigger] cs[i]) != spec_hash_of(#[trigger] cs[j])
}

/// Chunks are ordered by start byte.
pub open spec fn chunks_ordered(cs: Seq<CodeChunk>) -> bool {
    forall|i: int, j: int| 0 <= i < j < cs.len()
        ==> (#[trigger] cs[i]).start_byte <= (#[trigger] cs[j]).start_byte
}

/// Does `c` come from a query capture: some capture of some match has its
/// byte range, and names its kind?
pub open spec fn chunk_from_matches(c: CodeChunk, matches: Seq<Seq<RawCapture>>, names: Seq<Seq<u8>>) -> bool {
    exists|mi: int, k: int|
        #![trigger matches[mi][k]]
        0 <= mi < matches.len() && 0 <= k < matches[mi].len()
            && matches[mi][k].name_index < names.len()
            && c.start_byte == matches[mi][k].start_byte
            && c.end_byte == matches[mi][k].end_byte
            && c.kind@ == names[matches[mi][k].name_index as int]
}

/// Does some already-collected chunk carry the hash `h`?
fn contains_hash(acc: &Vec<CodeChunk>, h: u64) -> (r: bool)
    ensures
        r == exists|i: int| 0 <= i < acc@.len() && spec_hash_of(#[trigger] acc@[i]) == h,
{
    let mut i: usize = 0;
    while i < acc.len()
        invariant
            i <= acc@.len(),
            forall|j: int| 0 <= j < i ==> spec_hash_of(#[trigger] acc@[j]) != h,
        decreases acc@.len() - i,
    {
        if chunk_hash(acc[i].content.as_slice(), acc[i].kind.as_slice()) == h {
            proof {
                assert(spec_hash_of(acc@[i as int]) == h);
            }
            return true;
        }
        i = i + 1;
    }
    false
}

/// Sort chunks by start byte, keeping every chunk (each satisfies the given
/// property before and after) and keeping hashes distinct.
fn sort_chunks_by_start(v: Vec<CodeChunk>, Ghost(p): Ghost<spec_fn(CodeChunk) -> bool>) -> (r: Vec<CodeChunk>)
    requires
        forall|i: int| 0 <= i < v@.len() ==> p(#[trigger] v@[i]),
        distinct_chunk_hashes(v@),
    ensures
        r@.len() == v@.len(),
        forall|i: int| 0 <= i < r@.len() ==> p(#[trigger] r@[i]),
        distinct_chunk_hashes(r@),
        chunks_ordered(r@),
{
    let ghost n = v@.len();
    let mut v = v;
    let mut out: Vec<CodeChunk> = Vec::new();
    while v.len() > 0
        invariant
            out@.len() + v@.len() == n,
            forall|i: int| 0 <= i < out@.len() ==> p(#[trigger] out@[i]),
            forall|i: int| 0 <= i < v@.len() ==> p(#[trigger] v@[i]),
            distinct_chunk_hashes(out@),
            distinct_chunk_hashes(v@),
            forall|i: int, j: int| 0 <= i < out@.len() && 0 <= j < v@.len()
                ==> spec_hash_of(#[trigger] out@[i]) != spec_hash_of(#[trigger] v@[j]),
            chunks_ordered(out@),
        decreases v@.len(),
    {
        let ghost vpre = v@;
        let c = v.remove(0);
        proof {
            assert forall|j: int| 0 <= j < v@.len() implies #[trigger] v@[j] == vpre[j + 1] by {}
        }
        let mut pos: usize = 0;
        while pos < out.len() && out[pos].start_byte <= c.start_byte
            invariant
                pos <= out@.len(),
                forall|q: int| 0 <= q < pos ==> (#[trigger] out@[q]).start_byte <= c.start_byte,
            decreases out@.len() - pos,
        {
            pos = pos + 1;
        }
        let ghost opre = out@;
        let ghost posg = pos as int;
        out.insert(pos, c);
        proof {
            opre.insert_ensures(posg, c);
            assert(out@ == opre.insert(posg, c));
            assert forall|a: int, b: int| 0 <= a < b < out@.len() implies (#[trigger] out@[a])
                .start_byte <= (#[trigger] out@[b]).start_byte by {
                if b < posg {
                    assert(out@[a] == opre[a] && out@[b] == opre[b]);
                } else if b == posg {
                    assert(out@[a] == opre[a]);
                } else if a < posg {
                    assert(out@[a] == opre[a] && out@[b] == opre[b - 1]);
                } else if a == posg {
                    assert(out@[b] == opre[b - 1]);
                    assert(c.start_byte < opre[posg].start_byte);
                    assert(opre[posg].start_byte <= opre[b - 1].start_byte);
                } else {
                    assert(out@[a] == opre[a - 1] && out@[b] == opre[b - 1]);
                }
            }
            assert forall|a: int| 0 <= a < out@.len() implies p(#[trigger] out@[a])
                && spec_hash_of(out@[a]) != spec_hash_of(c) || out@[a] == c by {
                if a < posg {
                    assert(out@[a] == opre[a]);
                } else if a > posg {
                    assert(out@[a] == opre[a - 1]);
                }
            }
            assert forall|a: int, b: int| 0 <= a < b < out@.len() implies spec_hash_of(
                #[trigger] out@[a],
            ) != spec_hash_of(#[trigger] out@[b]) by {
                if a == posg {
                    assert(out@[b] == opre[b - 1]);
                } else if b == posg {
                    assert(out@[a] == opre[a]);
                } else {
                    assert(out@[a] == (if a < posg { opre[a] } else { opre[a - 1] }));
                    assert(out@[b] == (if b < posg { opre[b] } else { opre[b - 1] }));
                }
            }
            assert forall|i: int, j: int| 0 <= i < out@.len() && 0 <= j < v@.len() implies
                spec_hash_of(#[trigger] out@[i]) != spec_hash_of(#[trigger] v@[j]) by {
                assert(v@[j] == vpre[j + 1]);
                if i != posg {
                    let i0 = if i < posg { i } else { i - 1 };
                    assert(out@[i] == opre[i0]);
                } else {
                    assert(out@[i] == c && c == vpre[0]);
                }
            }
        }
    }
    out
}

/// The language an extension names, if any.
pub fn language_for(ext: &[u8]) -> (r: Option<Lang>)
    ensures
        r == spec_language_for(ext@),
{
    proof {
        assert(seq![114u8, 115u8].len() == 2);
        assert(seq![112u8, 121u8].len() == 2);
        assert(seq![106u8, 115u8].len() == 2);
        assert(seq![116u8, 115u8].len() == 2);
    }
    if ext.len() != 2 {
        return None;
    }
    let a = ext[0];
    let b = ext[1];
    proof {
        assert(ext@ =~= seq![ext@[0], ext@[1]]);
    }
    if a == 114u8 && b == 115u8 {
        proof {
            assert(ext@ =~= seq![114u8, 115u8]);
        }
        Some(Lang::Rust)
    } else if a == 112u8 && b == 121u8 {
        proof {
            assert(ext@ =~= seq![112u8, 121u8]);
        }
        Some(Lang::Python)
    } else if a == 106u8 && b == 115u8 {
        proof {
            assert(ext@ =~= seq![106u8, 115u8]);
        }
        Some(Lang::JavaScript)
    } else if a == 116u8 && b == 115u8 {
        proof {
            assert(ext@ =~= seq![116u8, 115u8]);
        }
        Some(Lang::TypeScript)
    } else {
        None
    }
}

proof fn lemma_newline_positions_len(s: Seq<u8>)
    ensures
        newline_positions(s).len() <= s.len(),
    decreases s.len(),
{
    if s.len() > 0 {
        lemma_newline_positions_len(s.drop_last());
    }
}

/// The structural query run over a file of the given language: it
/// captures each top-level definition together with the comment group
/// right before it.
pub open spec fn spec_query_source(lang: Lang) -> Seq<u8> {
    match lang {
        Lang::Rust => "
                ([(line_comment)* (block_comment)*] @comment
                 [(function_item) @function
                  (impl_item) @impl
                  (trait_item) @trait])
                ".spec_bytes(),
        Lang::Python => "
                ((comment)* @comment
                 (function_definition) @function)
                ".spec_bytes(),
        Lang::JavaScript | Lang::TypeScript => "
                ((comment)* @comment
                 [(function_declaration) @function
                  (method_definition) @function])
                ".spec_bytes(),
    }
}

/// Assemble chunks out of the query matches over `content`.
///
/// Every capture index and byte range is checked against `names` and
/// `content`.  A match contributes exactly one chunk, built from its
/// first definition capture, unless an earlier match already took the
/// same content hash or the same start byte; the result is strictly
/// ordered by start byte.
/// Assemble chunks out of the query matches over `content`.
///
/// Every capture index and byte range is checked against `names` and
/// `content`; a match contributes one chunk, built from its first in-range
/// non-comment capture, unless a chunk with the same content hash was
/// already taken from an earlier match.  The result is ordered by start
/// byte.
pub fn build_chunks(content: &[u8], matches: &Vec<RawMatch>, names: &Vec<Vec<u8>>) -> (r: Vec<CodeChunk>)
    requires
        content@.len() + 2 <= usize::MAX,
    ensures
        forall|i: int| 0 <= i < r@.len() ==> chunk_wf(#[trigger] r@[i], content@),
        forall|i: int| 0 <= i < r@.len() ==> chunk_from_matches(
            #[trigger] r@[i],
            matches@.map_values(|m: RawMatch| m.captures@),
            names@.map_values(|n: Vec<u8>| n@),
        ),
        distinct_chunk_hashes(r@),
        chunks_ordered(r@),
        matches@.len() == 0 ==> r@.len() == 0,
{
    let ghost matchesv = matches@.map_values(|m: RawMatch| m.captures@);
    let ghost namesv = names@.map_values(|n: Vec<u8>| n@);
    let ls = compute_line_starts(content);
    proof {
        lemma_newline_positions_len(content@);
    }
    let comment = make_comment_name();
    let mut acc: Vec<CodeChunk> = Vec::new();
    let ghost p: spec_fn(CodeChunk) -> bool = |c: CodeChunk| chunk_wf(c, content@)
        && chunk_from_matches(c, matchesv, namesv);
    let mut mi: usize = 0;
    while mi < matches.len()
        invariant
            content@.len() + 2 <= usize::MAX,
            ls@ == spec_line_starts(content@),
            ls@.len() < usize::MAX,
            comment@ == spec_comment_name(),
            matchesv == matches@.map_values(|m: RawMatch| m.captures@),
            namesv == names@.map_values(|n: Vec<u8>| n@),
            mi <= matches@.len(),
            p == (|c: CodeChunk| chunk_wf(c, content@)
                && chunk_from_matches(c, matchesv, namesv)),
            forall|i: int| 0 <= i < acc@.len() ==> p(#[trigger] acc@[i]),
            distinct_chunk_hashes(acc@),
            matches@.len() == 0 ==> acc@.len() == 0,
        decreases matches@.len() - mi,
    {
        let m = &matches[mi];
        let ghost caps = matchesv[mi as int];
        proof {
            assert(caps == m.captures@);
        }
        let mut comments: Vec<u8> = Vec::new();
        let mut def: Option<(usize, RawCapture)> = None;
        let mut k: usize = 0;
        while k < m.captures.len()
            invariant
                content@.len() + 2 <= usize::MAX,
                comment@ == spec_comment_name(),
                mi < matches@.len(),
                m == &matches@[mi as int],
                caps == m.captures@,
                namesv == names@.map_values(|n: Vec<u8>| n@),
                k <= caps.len(),
                match def {
                    Some((k0, cap)) => {
                        &&& k0 < caps.len()
                        &&& cap == caps[k0 as int]
                        &&& cap.name_index < namesv.len()
                        &&& cap.start_byte < cap.end_byte
                        &&& cap.end_byte <= content@.len()
                    },
                    None => true,
                },
            decreases caps.len() - k,
        {
            let cap = m.captures[k];
            if cap.name_index < names.len()
                && cap.start_byte <= cap.end_byte
                && cap.end_byte <= content.len()
            {
                if compare_bytes(names[cap.name_index].as_slice(), comment.as_slice()) {
                    comments.extend_from_slice(
                        vstd::slice::slice_subrange(content, cap.start_byte, cap.end_byte),
                    );
                    comments.push(10);
                } else if def.is_none() && cap.start_byte < cap.end_byte {
                    def = Some((k, cap));
                }
            }
            k = k + 1;
        }
        match def {
            Some((k0, cap)) => {
                let text = vstd::slice::slice_to_vec(
                    vstd::slice::slice_subrange(content, cap.start_byte, cap.end_byte),
                );
                let kind = vstd::slice::slice_to_vec(names[cap.name_index].as_slice());
                let h = chunk_hash(text.as_slice(), kind.as_slice());
                if !contains_hash(&acc, h) {
                    let start_line = line_of(&ls, cap.start_byte);
                    let end_line = line_of(&ls, cap.end_byte);
                    let chunk = CodeChunk {
                        content: text,
                        start_byte: cap.start_byte,
                        end_byte: cap.end_byte,
                        start_line,
                        end_line,
                        kind,
                        leading_comments: comments,
                        parent_name: None,
                    };
                    proof {
                        assert(chunk_wf(chunk, content@));
                        assert(0 <= mi < matchesv.len() && 0 <= k0 < caps.len()
                            && caps[k0 as int].name_index < namesv.len()
                            && chunk.start_byte == caps[k0 as int].start_byte
                            && chunk.end_byte == caps[k0 as int].end_byte
                            && chunk.kind@ == namesv[caps[k0 as int].name_index as int]);
                        assert(chunk_from_matches(chunk, matchesv, namesv));
                        assert(spec_hash_of(chunk) == h);
                    }
                    acc.push(chunk);
                }
            },
            None => {},
        }
        mi = mi + 1;
    }
    sort_chunks_by_start(acc, Ghost(p))
}

// ---------------------------------------------------------------------------
// The chunker
// ---------------------------------------------------------------------------

/// Splits source files into syntactic chunks.
pub struct Chunker {
}

impl Chunker {
    /// A fresh chunker.
    pub fn new() -> (r: Result<Chunker, ChunkError>)
        ensures
            r is Ok,
    {
        Ok(Chunker {  })
    }

    /// Chunk one file.
    ///
    /// Fails with `UnsupportedLanguage` exactly when the path's extension
    /// names no recognized language, and with `ParseError` exactly when
    /// the parser yields no query result for the content; when the named
    /// parse results exist, success is owed.  Every returned chunk is a
    /// faithful, line-numbered byte range of `content` built from a query
    /// capture, no two chunks share a content hash, and chunks are ordered
    /// by start byte.
    pub fn chunk_file(&mut self, path: &[u8], content: &[u8]) -> (r: Result<Vec<CodeChunk>, ChunkError>)
        requires
            content@.len() + 2 <= usize::MAX,
        ensures
            (r matches Err(ChunkError::UnsupportedLanguage)) <==> spec_language_of_path(path@) is None,
            match spec_language_of_path(path@) {
                Some(lang) => {
                    match (
                        crate::parsing::spec_ts_names(lang, spec_query_source(lang)),
                        crate::parsing::spec_ts_matches(lang, spec_query_source(lang), content@),
                    ) {
                        (Some(names), Some(ms)) => r is Ok,
                        _ => r matches Err(ChunkError::ParseError),
                    }
                },
                None => true,
            },
            match r {
                Ok(chunks) => {
                    &&& forall|i: int| 0 <= i < chunks@.len()
                        ==> chunk_wf(#[trigger] chunks@[i], content@)
                    &&& forall|i: int| 0 <= i < chunks@.len()
                        ==> chunk_from_matches(
                            #[trigger] chunks@[i],
                            crate::parsing::spec_ts_matches(
                                spec_language_of_path(path@)->0,
                                spec_query_source(spec_language_of_path(path@)->0),
                                content@,
                            )->0,
                            crate::parsing::spec_ts_names(
                                spec_language_of_path(path@)->0,
                                spec_query_source(spec_language_of_path(path@)->0),
                            )->0,
                        )
                    &&& distinct_chunk_hashes(chunks@)
                    &&& chunks_ordered(chunks@)
                },
                Err(_) => true,
            },
    {
        let ext = match extension_of(path) {
            Some(e) => e,
            None => {
                return Err(ChunkError::UnsupportedLanguage);
            },
        };
        let lang = match language_for(ext.as_slice()) {
            Some(l) => l,
            None => {
                return Err(ChunkError::UnsupportedLanguage);
            },
        };
        let source: &str = match lang {
            Lang::Rust => "
                ([(line_comment)* (block_comment)*] @comment
                 [(function_item) @function
                  (impl_item) @impl
                  (trait_item) @trait])
                ",
            Lang::Python => "
                ((comment)* @comment
                 (function_definition) @function)
                ",
            Lang::JavaScript | Lang::TypeScript => "
                ((comment)* @comment
                 [(function_declaration) @function
                  (method_definition) @function])
                ",
        };
        proof {
            assert(source.spec_bytes() == spec_query_source(lang));
        }
        let names = match crate::parsing::ts_query_names(lang, source) {
            Some(n) => n,
            None => {
                return Err(ChunkError::ParseError);
            },
        };
        let ms = match crate::parsing::ts_query_matches(lang, source, content) {
            Some(m) => m,
            None => {
                return Err(ChunkError::ParseError);
            },
        };
        let chunks = build_chunks(content, &ms, &names);
        Ok(chunks)
    }
}

} // verus!
