//! The embedder's verified half: preprocessing and the embedding cache.
//!
//! The model itself — loading it, running inference — lives at the system
//! edge.  What is verified here is everything around it: document text is
//! rewritten with symbolic prefixes before recognized syntactic captures
//! and its whitespace collapsed, and embeddings already computed in this
//! process are found again under the 64-bit hash of the preprocessed
//! text.

use vstd::prelude::*;
use vstd::string::StringSliceAdditionalSpecFns;

use crate::db::{EmbeddingMap, EMBEDDING_BYTES};
use crate::hashing::{fnv1a, fnv1a_hash};
use crate::parsing::RawMatch;
use crate::server::is_ws;

verus! {

/// Text annotated with the given prefix words, positions ascending: each
/// word stands right before the byte position it marks.
pub open spec fn spec_annotated(text: Seq<u8>, marks: Seq<(usize, Seq<u8>)>) -> Seq<u8>
    decreases marks.len(),
{
    if marks.len() == 0 {
        text
    } else {
        let p = marks.last().0 as int;
        spec_annotated(text.subrange(0, p), marks.drop_last()) + marks.last().1 + text.subrange(
            p,
            text.len() as int,
        )
    }
}

/// The marks of a mark vector, as spec values.
pub open spec fn marks_view(v: Seq<(usize, Vec<u8>)>) -> Seq<(usize, Seq<u8>)> {
    v.map_values(|m: (usize, Vec<u8>)| (m.0, m.1@))
}

/// Are the mark positions ascending and within the text?
pub open spec fn marks_wf(marks: Seq<(usize, Seq<u8>)>, text_len: int) -> bool {
    &&& forall|i: int| 0 <= i < marks.len() ==> (#[trigger] marks[i]).0 <= text_len
    &&& forall|i: int, j: int| 0 <= i < j < marks.len()
            ==> (#[trigger] marks[i]).0 <= (#[trigger] marks[j]).0
}

/// The whitespace-collapsed rest of `s` from position `i` on: tokens
/// separated by single spaces.  `any` says a token was already emitted;
/// `gap` says whitespace has passed since, so the next token needs a
/// separator first.
pub open spec fn collapse_from(s: Seq<u8>, i: int, any: bool, gap: bool) -> Seq<u8>
    decreases s.len() - i,
{
    if i < 0 || i >= s.len() {
        Seq::empty()
    } else if is_ws(s[i]) {
        collapse_from(s, i + 1, any, any)
    } else {
        (if gap {
            seq![32u8]
        } else {
            Seq::<u8>::empty()
        }) + seq![s[i]] + collapse_from(s, i + 1, true, false)
    }
}

/// `s` with its whitespace collapsed: the tokens of `s`, joined by single
/// spaces.
pub open spec fn spec_collapse(s: Seq<u8>) -> Seq<u8> {
    collapse_from(s, 0, false, false)
}

/// Collapse whitespace: tokens joined by single spaces, no leading or
/// trailing whitespace.
pub fn collapse_whitespace(s: &[u8]) -> (r: Vec<u8>)
    ensures
        r@ == spec_collapse(s@),
{
    let mut out: Vec<u8> = Vec::new();
    let mut any = false;
    let mut gap = false;
    let mut i: usize = 0;
    while i < s.len()
        invariant
            i <= s@.len(),
            spec_collapse(s@) == out@ + collapse_from(s@, i as int, any, gap),
        decreases s@.len() - i,
    {
        let b = s[i];
        if b == 32 || b == 9 || b == 10 || b == 13 {
            gap = any;
        } else {
            if gap {
                out.push(32);
            }
            out.push(b);
            any = true;
            gap = false;
        }
        proof {
            assert(spec_collapse(s@) =~= out@ + collapse_from(s@, i + 1, any, gap));
        }
        i = i + 1;
    }
    proof {
        assert(collapse_from(s@, s@.len() as int, any, gap) =~= Seq::<u8>::empty());
        assert(out@ =~= spec_collapse(s@));
    }
    out
}

/// Annotate `text` with prefix words at ascending positions.
pub fn annotate(text: &[u8], marks: &Vec<(usize, Vec<u8>)>) -> (r: Vec<u8>)
    requires
        marks_wf(marks_view(marks@), text@.len() as int),
    ensures
        r@ == spec_annotated(text@, marks_view(marks@)),
{
    let ghost ms = marks_view(marks@);
    let mut out: Vec<u8> = Vec::new();
    let mut done: usize = 0;
    let mut k: usize = 0;
    while k < marks.len()
        invariant
            k <= marks@.len(),
            ms == marks_view(marks@),
            marks_wf(ms, text@.len() as int),
            done <= text@.len(),
            forall|i: int| k <= i < ms.len() ==> done <= (#[trigger] ms[i]).0,
            forall|i: int| 0 <= i < k ==> (#[trigger] ms[i]).0 <= done,
            out@ == spec_annotated(text@.subrange(0, done as int), ms.subrange(0, k as int)),
        decreases marks@.len() - k,
    {
        let (p, word) = (marks[k].0, &marks[k].1);
        proof {
            assert(ms[k as int].0 == marks@[k as int].0);
            assert(done <= p <= text@.len());
        }
        out.extend_from_slice(vstd::slice::slice_subrange(text, done, p));
        out.extend_from_slice(word.as_slice());
        proof {
            let msk = ms.subrange(0, k + 1);
            assert(msk.drop_last() =~= ms.subrange(0, k as int));
            assert(msk.last() == ms[k as int]);
            assert(ms[k as int].0 == marks@[k as int].0 && ms[k as int].1 == marks@[k as int].1@);
            assert(text@.subrange(0, p as int).subrange(0, done as int) =~= text@.subrange(
                0,
                done as int,
            ));
            assert(text@.subrange(0, p as int).subrange(done as int, p as int) =~= text@.subrange(
                done as int,
                p as int,
            ));
            assert(spec_annotated(text@.subrange(0, p as int), msk) =~= spec_annotated(
                text@.subrange(0, p as int).subrange(0, p as int),
                msk.drop_last(),
            ) + msk.last().1 + text@.subrange(0, p as int).subrange(p as int, p as int));
            assert(text@.subrange(0, p as int).subrange(0, p as int) =~= text@.subrange(
                0,
                p as int,
            ));
            assert(text@.subrange(0, p as int).subrange(p as int, p as int)
                =~= Seq::<u8>::empty());
            lemma_annotated_prefix(text@, p as int, done as int, ms.subrange(0, k as int));
            assert(out@ =~= spec_annotated(text@.subrange(0, p as int), msk));
        }
        done = p;
        proof {
            assert forall|i: int| k + 1 <= i < ms.len() implies done <= (#[trigger] ms[i]).0 by {
                assert(ms[k as int].0 <= ms[i].0);
            }
        }
        k = k + 1;
    }
    out.extend_from_slice(vstd::slice::slice_subrange(text, done, text.len()));
    proof {
        assert(ms.subrange(0, ms.len() as int) =~= ms);
        lemma_annotated_prefix(text@, text@.len() as int, done as int, ms);
        assert(text@.subrange(0, text@.len() as int) =~= text@);
        assert(out@ =~= spec_annotated(text@, ms));
    }
    out
}

/// Annotating a prefix of the text with marks that lie inside it equals
/// annotating the shorter prefix they lie in and appending the rest.
proof fn lemma_annotated_prefix(text: Seq<u8>, p: int, done: int, marks: Seq<(usize, Seq<u8>)>)
    requires
        0 <= done <= p <= text.len(),
        forall|i: int| 0 <= i < marks.len() ==> (#[trigger] marks[i]).0 <= done,
    ensures
        spec_annotated(text.subrange(0, p), marks) == spec_annotated(text.subrange(0, done), marks)
            + text.subrange(done, p),
    decreases marks.len(),
{
    if marks.len() == 0 {
        assert(text.subrange(0, p) =~= text.subrange(0, done) + text.subrange(done, p));
    } else {
        let q = marks.last().0 as int;
        assert(q <= done);
        assert(text.subrange(0, p).subrange(0, q) =~= text.subrange(0, done).subrange(0, q));
        lemma_annotated_prefix(text, p, done, marks.drop_last());
        assert(spec_annotated(text.subrange(0, p), marks) == spec_annotated(
            text.subrange(0, p).subrange(0, q),
            marks.drop_last(),
        ) + marks.last().1 + text.subrange(0, p).subrange(q, p));
        assert(spec_annotated(text.subrange(0, done), marks) == spec_annotated(
            text.subrange(0, done).subrange(0, q),
            marks.drop_last(),
        ) + marks.last().1 + text.subrange(0, done).subrange(q, done));
        assert(text.subrange(0, p).subrange(q, p) =~= text.subrange(0, done).subrange(q, done)
            + text.subrange(done, p));
        assert(spec_annotated(text.subrange(0, p), marks) =~= spec_annotated(
            text.subrange(0, done),
            marks,
        ) + text.subrange(done, p));
    }
}

/// The prefix word a capture name earns, if its role is recognized.
pub open spec fn spec_prefix_for(name: Seq<u8>) -> Option<Seq<u8>> {
    if name == "function".spec_bytes() || name == "method".spec_bytes() {
        Some("FUNCTION ".spec_bytes())
    } else if name == "class".spec_bytes() {
        Some("CLASS ".spec_bytes())
    } else if name == "impl".spec_bytes() {
        Some("IMPLEMENTATION ".spec_bytes())
    } else if name == "trait".spec_bytes() {
        Some("TRAIT ".spec_bytes())
    } else if name == "name".spec_bytes() {
        Some("NAME ".spec_bytes())
    } else if name == "params".spec_bytes() {
        Some("PARAMETERS ".spec_bytes())
    } else {
        None
    }
}

/// The prefix word a capture name earns, if its role is recognized.
pub fn prefix_for_name(name: &[u8]) -> (r: Option<Vec<u8>>)
    ensures
        match r {
            Some(w) => spec_prefix_for(name@) == Some(w@),
            None => spec_prefix_for(name@) is None,
        },
{
    if crate::db::compare_bytes(name, "function".as_bytes())
        || crate::db::compare_bytes(name, "method".as_bytes()) {
        Some(str_vec("FUNCTION "))
    } else if crate::db::compare_bytes(name, "class".as_bytes()) {
        Some(str_vec("CLASS "))
    } else if crate::db::compare_bytes(name, "impl".as_bytes()) {
        Some(str_vec("IMPLEMENTATION "))
    } else if crate::db::compare_bytes(name, "trait".as_bytes()) {
        Some(str_vec("TRAIT "))
    } else if crate::db::compare_bytes(name, "name".as_bytes()) {
        Some(str_vec("NAME "))
    } else if crate::db::compare_bytes(name, "params".as_bytes()) {
        Some(str_vec("PARAMETERS "))
    } else {
        None
    }
}

/// A literal's UTF-8 bytes.
fn str_vec(s: &str) -> (r: Vec<u8>)
    ensures
        r@ == s.spec_bytes(),
{
    vstd::string::StrSliceExecFns::as_bytes_vec(s)
}

/// Does the mark sequence hold the mark `m`?
pub open spec fn marks_contain(ms: Seq<(usize, Seq<u8>)>, m: (usize, Seq<u8>)) -> bool {
    exists|i: int| 0 <= i < ms.len() && #[trigger] ms[i] == m
}

/// Is `m` the mark some recognized, in-range capture earns: its start
/// byte, with the prefix word of its capture name?
pub open spec fn is_mark_of(m: (usize, Seq<u8>), matches: Seq<RawMatch>, names: Seq<Vec<u8>>, text_len: int) -> bool {
    exists|mi: int, k: int|
        #![trigger matches[mi].captures@[k]]
        0 <= mi < matches.len() && 0 <= k < matches[mi].captures@.len()
            && matches[mi].captures@[k].name_index < names.len()
            && matches[mi].captures@[k].start_byte <= text_len
            && m.0 == matches[mi].captures@[k].start_byte
            && spec_prefix_for(names[matches[mi].captures@[k].name_index as int]@) == Some(m.1)
}

/// Every recognized, in-range capture has its mark in `ms`.
pub open spec fn marks_complete(ms: Seq<(usize, Seq<u8>)>, matches: Seq<RawMatch>, names: Seq<Vec<u8>>, text_len: int) -> bool {
    forall|mi: int, k: int|
        #![trigger matches[mi].captures@[k]]
        0 <= mi < matches.len() && 0 <= k < matches[mi].captures@.len()
            && matches[mi].captures@[k].name_index < names.len()
            && matches[mi].captures@[k].start_byte <= text_len
            && spec_prefix_for(names[matches[mi].captures@[k].name_index as int]@) is Some
            ==> marks_contain(
            ms,
            (
                matches[mi].captures@[k].start_byte,
                spec_prefix_for(names[matches[mi].captures@[k].name_index as int]@)->0,
            ),
        )
}

/// Collect the annotation marks of the recognized captures, in ascending
/// position order: exactly one mark per recognized in-range capture.
fn collect_marks(text_len: usize, matches: &Vec<RawMatch>, names: &Vec<Vec<u8>>) -> (r: Vec<(usize, Vec<u8>)>)
    ensures
        marks_wf(marks_view(r@), text_len as int),
        forall|i: int| 0 <= i < r@.len()
            ==> is_mark_of(((#[trigger] r@[i]).0, r@[i].1@), matches@, names@, text_len as int),
        marks_complete(
            marks_view(r@),
            matches@,
            names@,
            text_len as int,
        ),
{
    let mut r: Vec<(usize, Vec<u8>)> = Vec::new();
    let mut mi: usize = 0;
    while mi < matches.len()
        invariant
            mi <= matches@.len(),
            marks_wf(marks_view(r@), text_len as int),
            forall|i: int| 0 <= i < r@.len()
                ==> is_mark_of(
                    ((#[trigger] r@[i]).0, r@[i].1@),
                    matches@,
                    names@,
                    text_len as int,
                ),
            forall|mi2: int, k2: int|
                #![trigger matches@[mi2].captures@[k2]]
                0 <= mi2 < mi && 0 <= k2 < matches@[mi2].captures@.len()
                    && matches@[mi2].captures@[k2].name_index < names@.len()
                    && matches@[mi2].captures@[k2].start_byte <= text_len
                    && spec_prefix_for(
                    names@[matches@[mi2].captures@[k2].name_index as int]@,
                ) is Some ==> marks_contain(
                    marks_view(r@),
                    (
                        matches@[mi2].captures@[k2].start_byte,
                        spec_prefix_for(
                            names@[matches@[mi2].captures@[k2].name_index as int]@,
                        )->0,
                    ),
                ),
        decreases matches@.len() - mi,
    {
        let m = &matches[mi];
        let mut k: usize = 0;
        while k < m.captures.len()
            invariant
                mi < matches@.len(),
                k <= m.captures@.len(),
                m == &matches@[mi as int],
                marks_wf(marks_view(r@), text_len as int),
                forall|i: int| 0 <= i < r@.len()
                    ==> is_mark_of(
                        ((#[trigger] r@[i]).0, r@[i].1@),
                        matches@,
                        names@,
                        text_len as int,
                    ),
                forall|mi2: int, k2: int|
                    #![trigger matches@[mi2].captures@[k2]]
                    0 <= mi2 < matches@.len() && 0 <= k2 < matches@[mi2].captures@.len()
                        && (mi2 < mi || (mi2 == mi && k2 < k))
                        && matches@[mi2].captures@[k2].name_index < names@.len()
                        && matches@[mi2].captures@[k2].start_byte <= text_len
                        && spec_prefix_for(
                        names@[matches@[mi2].captures@[k2].name_index as int]@,
                    ) is Some ==> marks_contain(
                        marks_view(r@),
                        (
                            matches@[mi2].captures@[k2].start_byte,
                            spec_prefix_for(
                                names@[matches@[mi2].captures@[k2].name_index as int]@,
                            )->0,
                        ),
                    ),
            decreases m.captures@.len() - k,
        {
            let ghost rpre = marks_view(r@);
            let cap = m.captures[k];
            if cap.name_index < names.len() && cap.start_byte <= text_len {
                match prefix_for_name(names[cap.name_index].as_slice()) {
                    Some(word) => {
                        proof {
                            assert(cap == matches@[mi as int].captures@[k as int]);
                        }
                        proof {
                            assert(spec_prefix_for(names@[cap.name_index as int]@) == Some(
                                word@,
                            ));
                        }
                        let ghost wordv = word@;
                        insert_mark_sorted(&mut r, cap.start_byte, word, Ghost(text_len as int));
                        proof {
                            let rpost = marks_view(r@);
                            assert forall|i: int| 0 <= i < r@.len() implies is_mark_of(
                                ((#[trigger] r@[i]).0, r@[i].1@),
                                matches@,
                                names@,
                                text_len as int,
                            ) by {
                                assert(rpost[i] == (r@[i].0, r@[i].1@));
                                if rpost[i] == (cap.start_byte, wordv) {
                                    assert(is_mark_of(rpost[i], matches@, names@, text_len as int));
                                } else {
                                    assert(marks_contain(rpost, rpost[i]));
                                    assert(marks_contain(rpre, rpost[i]));
                                    let j = choose|j: int| 0 <= j < rpre.len()
                                        && #[trigger] rpre[j] == rpost[i];
                                    assert(is_mark_of(rpre[j], matches@, names@, text_len as int));
                                }
                            }
                            assert(marks_contain(rpost, (cap.start_byte, wordv)));
                            assert forall|mi2: int, k2: int|
                                #![trigger matches@[mi2].captures@[k2]]
                                0 <= mi2 < matches@.len() && 0 <= k2 < matches@[mi2].captures@.len()
                                    && (mi2 < mi || (mi2 == mi && k2 < k + 1))
                                    && matches@[mi2].captures@[k2].name_index < names@.len()
                                    && matches@[mi2].captures@[k2].start_byte <= text_len
                                    && spec_prefix_for(
                                    names@[matches@[mi2].captures@[k2].name_index as int]@,
                                ) is Some implies marks_contain(
                                    rpost,
                                    (
                                        matches@[mi2].captures@[k2].start_byte,
                                        spec_prefix_for(
                                            names@[matches@[mi2].captures@[k2].name_index as int]@,
                                        )->0,
                                    ),
                                ) by {
                                if mi2 == mi && k2 == k as int {
                                    assert(marks_contain(rpost, (cap.start_byte, wordv)));
                                } else {
                                    assert(marks_contain(
                                        rpre,
                                        (
                                            matches@[mi2].captures@[k2].start_byte,
                                            spec_prefix_for(
                                                names@[matches@[mi2].captures@[k2].name_index as int]@,
                                            )->0,
                                        ),
                                    ));
                                }
                            }
                        }
                    },
                    None => {},
                }
            }
            k = k + 1;
        }
        mi = mi + 1;
    }
    r
}

/// Insert a mark keeping positions ascending; membership otherwise stays
/// as it was.
fn insert_mark_sorted(r: &mut Vec<(usize, Vec<u8>)>, pos: usize, word: Vec<u8>, Ghost(text_len): Ghost<int>)
    requires
        marks_wf(marks_view(old(r)@), text_len),
        pos <= text_len,
    ensures
        marks_wf(marks_view(final(r)@), text_len),
        forall|x: (usize, Seq<u8>)|
            #[trigger] marks_contain(marks_view(final(r)@), x)
                <==> (marks_contain(marks_view(old(r)@), x)
                    || x == (pos, word@)),
{
    let ghost pms = marks_view(r@);
    let mut p: usize = 0;
    while p < r.len() && r[p].0 <= pos
        invariant
            pms == marks_view(r@),
            marks_wf(pms, text_len),
            p <= r@.len(),
            pos <= text_len,
            forall|q: int| 0 <= q < p ==> (#[trigger] r@[q]).0 <= pos,
        decreases r@.len() - p,
    {
        p = p + 1;
    }
    let ghost pre = r@;
    let ghost posg = p as int;
    r.insert(p, (pos, word));
    proof {
        pre.insert_ensures(posg, (pos, word));
        let ms = marks_view(r@);
        assert forall|i: int| 0 <= i < ms.len() implies (#[trigger] ms[i]).0 <= text_len by {
            assert(ms[i].0 == r@[i].0);
            if i < posg {
                assert(r@[i] == pre[i]);
                assert(pms[i].0 == pre[i].0);
            } else if i > posg {
                assert(r@[i] == pre[i - 1]);
                assert(pms[i - 1].0 == pre[i - 1].0);
            }
        }
        assert forall|i: int, j: int| 0 <= i < j < ms.len() implies (#[trigger] ms[i]).0 <= (
        #[trigger] ms[j]).0 by {
            assert(ms[i].0 == r@[i].0 && ms[j].0 == r@[j].0);
            if i < posg {
                assert(r@[i] == pre[i]);
            } else if i > posg {
                assert(r@[i] == pre[i - 1]);
                assert(pms[i - 1].0 == pre[i - 1].0);
            }
            if j < posg {
                assert(r@[j] == pre[j]);
                assert(pms[i].0 <= pms[j].0);
            } else if j > posg {
                assert(r@[j] == pre[j - 1]);
            }
            if i == posg && j > posg {
                assert(posg < pre.len());
                assert(pre[posg].0 > pos);
                assert(pms[posg].0 <= pms[j - 1].0);
                assert(pms[posg].0 == pre[posg].0 && pms[j - 1].0 == pre[j - 1].0);
            }
            if j == posg {
                assert(pre[i].0 <= pos);
            }
            if i < posg && j > posg {
                assert(pms[i].0 <= pms[j - 1].0);
                assert(pms[i].0 == pre[i].0 && pms[j - 1].0 == pre[j - 1].0);
            }
            if i > posg {
                assert(pms[i - 1].0 <= pms[j - 1].0);
                assert(pms[i - 1].0 == pre[i - 1].0 && pms[j - 1].0 == pre[j - 1].0);
            }
        }
        assert forall|x: (usize, Seq<u8>)|
            #[trigger] marks_contain(ms, x) <==> (marks_contain(pms, x) || x == (
            pos,
            word@,
        )) by {
            assert(r@[posg] == (pos, word));
            assert(ms[posg] == (pos, word@));
            if marks_contain(ms, x) {
                let i = choose|i: int| 0 <= i < ms.len() && #[trigger] ms[i] == x;
                if i != posg {
                    let i0 = if i < posg { i } else { i - 1 };
                    assert(r@[i] == pre[i0]);
                    assert(pms[i0] == ms[i]);
                    assert(marks_contain(pms, x));
                }
            }
            if marks_contain(pms, x) {
                let i0 = choose|i0: int| 0 <= i0 < pms.len() && #[trigger] pms[i0] == x;
                let i = if i0 < posg { i0 } else { i0 + 1 };
                assert(r@[i] == pre[i0]);
                assert(ms[i] == pms[i0]);
                assert(marks_contain(ms, x));
            }
            if x == (pos, word@) {
                assert(marks_contain(ms, x));
            }
        }
    }
}

/// The structural query whose captures earn prefix words during
/// preprocessing, for each recognized language.  Scripts without their own
/// grammar here fall back to the JavaScript query.
pub fn preprocess_query_source(lang: crate::chunker::Lang) -> &'static str {
    match lang {
        crate::chunker::Lang::Rust => "
            (function_item
                name: (identifier) @name
                parameters: (parameters) @params
            ) @function

            (impl_item
                trait: (type_identifier)? @trait_name
                type: (type_identifier) @type_name
            ) @impl

            (trait_item
                name: (identifier) @trait_name
            ) @trait
            ",
        crate::chunker::Lang::Python => "
            (function_definition
                name: (identifier) @name
                parameters: (parameters) @params
                body: (block)? @body
            ) @function

            (class_definition
                name: (identifier) @name
                body: (block) @body
            ) @class
            ",
        crate::chunker::Lang::JavaScript | crate::chunker::Lang::TypeScript => "
            (function_declaration
                name: (identifier) @name
                parameters: (formal_parameters) @params
                body: (statement_block) @body
            ) @function

            (method_definition
                name: (property_identifier) @name
                parameters: (formal_parameters) @params
                body: (statement_block) @body
            ) @method

            (class_declaration
                name: (identifier) @name
                body: (class_body) @body
            ) @class
            ",
    }
}

/// The embedder's in-process cache, keyed by the hash of the preprocessed
/// text.
pub struct Embedder {
    pub cache: EmbeddingMap,
}

impl Embedder {
    /// An embedder with an empty cache; the model itself is loaded at the
    /// system edge.
    pub fn new() -> (r: Embedder)
        ensures
            r.cache.wf(),
            r.cache.entries@.len() == 0,
    {
        Embedder { cache: EmbeddingMap::new() }
    }

    /// Preprocess a document before embedding: prefix the recognized
    /// syntactic captures with their role words (one mark per recognized
    /// in-range capture, in position order), collapse whitespace, and
    /// return the text together with its cache key.
    pub fn prepare_text(&self, text: &[u8], matches: &Vec<RawMatch>, names: &Vec<Vec<u8>>) -> (r: (Vec<u8>, u64))
        ensures
            r.1 == fnv1a(r.0@),
            exists|marks: Seq<(usize, Seq<u8>)>|
                marks_wf(marks, text@.len() as int)
                    && (forall|i: int| 0 <= i < marks.len()
                        ==> is_mark_of(#[trigger] marks[i], matches@, names@, text@.len() as int))
                    && marks_complete(marks, matches@, names@, text@.len() as int)
                    && r.0@ == spec_collapse(#[trigger] spec_annotated(text@, marks)),
    {
        let marks = collect_marks(text.len(), matches, names);
        let annotated = annotate(text, &marks);
        let processed = collapse_whitespace(annotated.as_slice());
        let h = fnv1a_hash(processed.as_slice());
        proof {
            let ms = marks_view(marks@);
            assert forall|i: int| 0 <= i < ms.len() implies is_mark_of(
                #[trigger] ms[i],
                matches@,
                names@,
                text@.len() as int,
            ) by {
                assert(ms[i] == (marks@[i].0, marks@[i].1@));
                assert(is_mark_of((marks@[i].0, marks@[i].1@), matches@, names@, text@.len() as int));
            }
            assert(marks_wf(ms, text@.len() as int)
                && marks_complete(ms, matches@, names@, text@.len() as int)
                && processed@ == spec_collapse(spec_annotated(text@, ms)));
        }
        (processed, h)
    }

    /// A cached embedding for the preprocessed text hashed `h`, if one was
    /// recorded in this process.
    pub fn lookup(&self, h: u64) -> (r: Option<&Vec<u8>>)
        requires
            self.cache.wf(),
        ensures
            match r {
                Some(v) => self.cache.spec_contains(h) && v@ == self.cache.spec_get(h),
                None => !self.cache.spec_contains(h),
            },
    {
        self.cache.get(h)
    }

    /// Record a freshly computed embedding under its cache key.
    pub fn record(&mut self, h: u64, embedding: Vec<u8>)
        requires
            old(self).cache.wf(),
            embedding@.len() == EMBEDDING_BYTES,
        ensures
            final(self).cache.wf(),
            final(self).cache.spec_contains(h),
            final(self).cache.spec_get(h) == embedding@,
            forall|k2: u64| k2 != h
                ==> #[trigger] final(self).cache.spec_contains(k2)
                    == old(self).cache.spec_contains(k2),
    {
        self.cache.insert(h, embedding);
    }
}

} // verus!
