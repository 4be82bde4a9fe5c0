//! The indexer: drive chunks of a file into the store, reusing embeddings.
//!
//! Full indexing saves every chunk of a file with a freshly computed
//! embedding.  Partial reindexing of a changed file first lifts the stored
//! `hash -> embedding` map out of the store, deletes the file's rows, and
//! then saves the new chunks, reusing the stored embedding for every chunk
//! whose content hash is unchanged and taking a fresh embedding only for
//! the rest.

use vstd::prelude::*;

use crate::chunker::{spec_extension, spec_hash_of, CodeChunk, distinct_chunk_hashes};
use crate::db::{ChunkRow, Database, EmbeddingMap, VectorRow, EMBEDDING_BYTES};
use crate::db::{surviving_rows, surviving_vectors};

verus! {

// ---------------------------------------------------------------------------
// What saving a file's chunks does to the store
// ---------------------------------------------------------------------------

/// Is `row` (with its vector `vrow`) the record of chunk `c`, stored under
/// `path` at position `idx` with embedding `emb`?
pub open spec fn row_of_chunk(row: ChunkRow, vrow: VectorRow, path: Seq<u8>, idx: int, c: CodeChunk, emb: Seq<u8>) -> bool {
    &&& row.file_path@ == path
    &&& row.chunk_index == idx
    &&& row.node_type@ == c.kind@
    &&& (c.parent_name is None ==> row.node_name is None)
    &&& (forall|p: Vec<u8>| c.parent_name == Some(p)
            ==> (exists|q: Vec<u8>| row.node_name == Some(q) && q@ == p@))
    &&& row.start_line == c.start_line
    &&& row.end_line == c.end_line
    &&& row.text@ == c.content@
    &&& row.hash == spec_hash_of(c)
    &&& vrow.embedding@ == emb
}

/// The store `db` is `db0` with one record appended per chunk, in order,
/// chunk `i` stored under `path` at index `i` with embedding `embs[i]`.
pub open spec fn appended_chunk_rows(db0: Database, db: Database, path: Seq<u8>, chunks: Seq<CodeChunk>, embs: Seq<Seq<u8>>) -> bool {
    &&& db.rows().len() == db0.rows().len() + chunks.len()
    &&& db.vecs().len() == db0.vecs().len() + chunks.len()
    &&& forall|j: int| 0 <= j < db0.rows().len()
            ==> #[trigger] db.rows()[j] == db0.rows()[j] && db.vecs()[j] == db0.vecs()[j]
    &&& forall|i: int| 0 <= i < chunks.len()
            ==> row_of_chunk(
                #[trigger] db.rows()[db0.rows().len() + i],
                db.vecs()[db0.vecs().len() + i],
                path,
                i,
                chunks[i],
                embs[i],
            )
    &&& db.spec_next_id() == db0.spec_next_id() + chunks.len()
}

/// The key under which chunk `c` of `path` is unique in the store.
pub open spec fn chunk_key_present(db: Database, path: Seq<u8>, c: CodeChunk) -> bool {
    db.spec_contains_key(path, c.start_line, c.end_line, spec_hash_of(c))
}

/// No stored record lies under `path`.
pub open spec fn no_rows_for_path(db: Database, path: Seq<u8>) -> bool {
    forall|j: int| 0 <= j < db.rows().len() ==> (#[trigger] db.rows()[j]).file_path@ != path
}

/// Save every chunk of one file, pairing chunk `i` with `embeddings[i]`.
///
/// Records are keyed for uniqueness, so two situations are pinned down:
/// if every chunk's key is already stored (an unchanged file indexed
/// again), the store does not change at all; and if the file has no stored
/// rows and the chunks carry distinct hashes (a fresh or just-deleted
/// file), exactly one record per chunk is appended, in order.
pub fn index_file(db: &mut Database, file_path: &[u8], chunks: &Vec<CodeChunk>, embeddings: &Vec<Vec<u8>>)
    requires
        old(db).wf(),
        old(db).spec_next_id() + chunks@.len() <= i64::MAX,
        chunks@.len() <= i32::MAX,
        embeddings@.len() == chunks@.len(),
        forall|i: int| 0 <= i < embeddings@.len()
            ==> (#[trigger] embeddings@[i])@.len() == EMBEDDING_BYTES,
    ensures
        final(db).wf(),
        final(db).rows().len() <= old(db).rows().len() + chunks@.len(),
        forall|j: int| 0 <= j < old(db).rows().len()
            ==> #[trigger] final(db).rows()[j] == old(db).rows()[j]
                && final(db).vecs()[j] == old(db).vecs()[j],
        (forall|i: int| 0 <= i < chunks@.len()
            ==> chunk_key_present(*old(db), file_path@, #[trigger] chunks@[i]))
            ==> *final(db) == *old(db),
        (no_rows_for_path(*old(db), file_path@) && distinct_chunk_hashes(chunks@))
            ==> appended_chunk_rows(
                *old(db),
                *final(db),
                file_path@,
                chunks@,
                embeddings@.map_values(|e: Vec<u8>| e@),
            ),
{
    let ghost pre = *db;
    let mut i: usize = 0;
    while i < chunks.len()
        invariant
            db.wf(),
            pre.wf(),
            i <= chunks@.len(),
            chunks@.len() <= i32::MAX,
            embeddings@.len() == chunks@.len(),
            forall|x: int| 0 <= x < embeddings@.len()
                ==> (#[trigger] embeddings@[x])@.len() == EMBEDDING_BYTES,
            pre.spec_next_id() + chunks@.len() <= i64::MAX,
            db.spec_next_id() <= pre.spec_next_id() + i,
            pre.rows().len() <= db.rows().len() <= pre.rows().len() + i,
            db.vecs().len() == db.rows().len(),
            forall|j: int| 0 <= j < pre.rows().len()
                ==> #[trigger] db.rows()[j] == pre.rows()[j] && db.vecs()[j] == pre.vecs()[j],
            (forall|x: int| 0 <= x < i
                ==> chunk_key_present(pre, file_path@, #[trigger] chunks@[x])) ==> *db == pre,
            (no_rows_for_path(pre, file_path@) && distinct_chunk_hashes(chunks@))
                ==> appended_chunk_rows(
                    pre,
                    *db,
                    file_path@,
                    chunks@.subrange(0, i as int),
                    embeddings@.map_values(|e: Vec<u8>| e@).subrange(0, i as int),
                ),
        decreases chunks@.len() - i,
    {
        let ghost mid = *db;
        let chunk = &chunks[i];
        let h = chunk.hash();
        let node_name: Option<Vec<u8>> = match &chunk.parent_name {
            Some(p) => Some(vstd::slice::slice_to_vec(p.as_slice())),
            None => None,
        };
        db.save_chunk(
            vstd::slice::slice_to_vec(file_path),
            i as i32,
            vstd::slice::slice_to_vec(chunk.kind.as_slice()),
            node_name,
            chunk.start_line,
            chunk.end_line,
            vstd::slice::slice_to_vec(chunk.content.as_slice()),
            h,
            vstd::slice::slice_to_vec(embeddings[i].as_slice()),
        );
        proof {
            let embsv = embeddings@.map_values(|e: Vec<u8>| e@);
            // Whatever save_chunk did, the rows already present survive.
            if mid.spec_contains_key(
                file_path@,
                chunks@[i as int].start_line,
                chunks@[i as int].end_line,
                spec_hash_of(chunks@[i as int]),
            ) {
                assert(*db == mid);
            } else {
                assert(db.rows().len() == mid.rows().len() + 1);
                assert forall|j: int| 0 <= j < pre.rows().len() implies #[trigger] db.rows()[j]
                    == pre.rows()[j] && db.vecs()[j] == pre.vecs()[j] by {
                    assert(db.rows()[j] == mid.rows()[j]);
                    assert(db.vecs()[j] == mid.vecs()[j]);
                }
            }
            // If every key was already present, the store stays as it was.
            if forall|x: int| 0 <= x < i + 1
                ==> chunk_key_present(pre, file_path@, #[trigger] chunks@[x]) {
                assert(mid == pre);
                assert(chunk_key_present(pre, file_path@, chunks@[i as int]));
                assert(mid.spec_contains_key(
                    file_path@,
                    chunks@[i as int].start_line,
                    chunks@[i as int].end_line,
                    spec_hash_of(chunks@[i as int]),
                ));
                assert(*db == mid);
            }
            // A fresh file appends exactly one record per chunk.
            if no_rows_for_path(pre, file_path@) && distinct_chunk_hashes(chunks@) {
                assert(appended_chunk_rows(pre, mid, file_path@, chunks@.subrange(0, i as int),
                    embsv.subrange(0, i as int)));
                let c = chunks@[i as int];
                assert(!mid.spec_contains_key(file_path@, c.start_line, c.end_line, spec_hash_of(c)))
                    by {
                    if mid.spec_contains_key(file_path@, c.start_line, c.end_line, spec_hash_of(c)) {
                        let j = choose|j: int| 0 <= j < mid.rows().len()
                            && crate::db::row_has_key(
                                #[trigger] mid.rows()[j],
                                file_path@,
                                c.start_line,
                                c.end_line,
                                spec_hash_of(c),
                            );
                        if j < pre.rows().len() {
                            assert(mid.rows()[j] == pre.rows()[j]);
                            assert(pre.rows()[j].file_path@ != file_path@);
                        } else {
                            let x = j - pre.rows().len();
                            assert(row_of_chunk(
                                mid.rows()[pre.rows().len() + x],
                                mid.vecs()[pre.vecs().len() + x],
                                file_path@,
                                x,
                                chunks@.subrange(0, i as int)[x],
                                embsv.subrange(0, i as int)[x],
                            ));
                            assert(spec_hash_of(chunks@[x]) != spec_hash_of(c));
                        }
                    }
                }
                assert(chunks@.subrange(0, i + 1).len() == i + 1);
                assert forall|x: int| 0 <= x < i + 1 implies row_of_chunk(
                    #[trigger] db.rows()[pre.rows().len() + x],
                    db.vecs()[pre.vecs().len() + x],
                    file_path@,
                    x,
                    chunks@.subrange(0, i + 1)[x],
                    embsv.subrange(0, i + 1)[x],
                ) by {
                    if x < i {
                        assert(db.rows()[pre.rows().len() + x] == mid.rows()[pre.rows().len() + x]);
                        assert(db.vecs()[pre.vecs().len() + x] == mid.vecs()[pre.vecs().len() + x]);
                        assert(chunks@.subrange(0, i + 1)[x] == chunks@.subrange(0, i as int)[x]);
                        assert(embsv.subrange(0, i + 1)[x] == embsv.subrange(0, i as int)[x]);
                    } else {
                        assert(db.rows().last() == db.rows()[pre.rows().len() + x]);
                        assert(embsv[i as int] == embeddings@[i as int]@);
                    }
                }
                assert(appended_chunk_rows(pre, *db, file_path@, chunks@.subrange(0, i + 1),
                    embsv.subrange(0, i + 1)));
            }
        }
        i = i + 1;
    }
    proof {
        let embsv = embeddings@.map_values(|e: Vec<u8>| e@);
        assert(chunks@.subrange(0, chunks@.len() as int) =~= chunks@);
        assert(embsv.subrange(0, embsv.len() as int) =~= embsv);
    }
}

// ---------------------------------------------------------------------------
// Partial reindexing with embedding reuse
// ---------------------------------------------------------------------------

/// Lift the stored `hash -> embedding` map for `file_path` out of the
/// store, then delete the file's rows, leaving a clean slate for
/// [`apply_reindex`].  The map is taken before the deletion, so every
/// embedding the file had is available for reuse.
pub fn plan_reindex(db: &mut Database, file_path: &[u8]) -> (reuse: EmbeddingMap)
    requires
        old(db).wf(),
    ensures
        final(db).wf(),
        reuse.wf(),
        final(db).rows() == surviving_rows(old(db).rows(), file_path@),
        final(db).vecs() == surviving_vectors(old(db).rows(), old(db).vecs(), file_path@),
        final(db).spec_next_id() == old(db).spec_next_id(),
        no_rows_for_path(*final(db), file_path@),
        forall|h: u64| #[trigger] reuse.spec_contains(h) <==> old(db).spec_has_hash(file_path@, h),
        forall|h: u64| #[trigger] reuse.spec_contains(h)
            ==> old(db).spec_hash_embedding_at(file_path@, h, reuse.spec_get(h)),
{
    let reuse = db.get_chunks_with_embeddings(file_path);
    db.delete_file(file_path);
    reuse
}

/// The positions of the chunks whose hash is not in the reuse map: the
/// chunks that need a fresh embedding, in order.
pub fn chunks_needing_embedding(chunks: &Vec<CodeChunk>, reuse: &EmbeddingMap) -> (need: Vec<usize>)
    requires
        reuse.wf(),
    ensures
        forall|i: int| 0 <= i < need@.len() ==> (#[trigger] need@[i]) < chunks@.len()
            && !reuse.spec_contains(spec_hash_of(chunks@[need@[i] as int])),
        forall|j: int| 0 <= j < chunks@.len()
            && !reuse.spec_contains(spec_hash_of(#[trigger] chunks@[j]))
            ==> need@.contains(j as usize),
{
    let mut need: Vec<usize> = Vec::new();
    let mut j: usize = 0;
    while j < chunks.len()
        invariant
            reuse.wf(),
            j <= chunks@.len(),
            forall|i: int| 0 <= i < need@.len() ==> (#[trigger] need@[i]) < j
                && !reuse.spec_contains(spec_hash_of(chunks@[need@[i] as int])),
            forall|x: int| 0 <= x < j
                && !reuse.spec_contains(spec_hash_of(#[trigger] chunks@[x]))
                ==> need@.contains(x as usize),
        decreases chunks@.len() - j,
    {
        let ghost prev = need@;
        let h = chunks[j].hash();
        match reuse.get(h) {
            Some(_) => {},
            None => {
                need.push(j);
                proof {
                    assert forall|x: int| 0 <= x < j + 1
                        && !reuse.spec_contains(spec_hash_of(#[trigger] chunks@[x]))
                        implies need@.contains(x as usize) by {
                        if x < j {
                            let q = choose|q: int| 0 <= q < prev.len() && prev[q] == x as usize;
                            assert(need@[q] == x as usize);
                        } else {
                            assert(need@.last() == x as usize);
                        }
                    }
                }
            },
        }
        j = j + 1;
    }
    need
}

/// The embedding each chunk receives on reindex: the stored one where the
/// chunk's hash is in the reuse map, the fresh one (keyed by chunk
/// position) otherwise.
pub open spec fn chosen_embeddings(chunks: Seq<CodeChunk>, reuse: EmbeddingMap, fresh: EmbeddingMap) -> Seq<Seq<u8>> {
    Seq::new(
        chunks.len(),
        |i: int| if reuse.spec_contains(spec_hash_of(chunks[i])) {
            reuse.spec_get(spec_hash_of(chunks[i]))
        } else {
            fresh.spec_get(i as u64)
        },
    )
}

/// How many chunks can reuse a stored embedding.
pub open spec fn count_reused(chunks: Seq<CodeChunk>, reuse: EmbeddingMap) -> int
    decreases chunks.len(),
{
    if chunks.len() == 0 {
        0
    } else {
        count_reused(chunks.drop_last(), reuse) + (
        if reuse.spec_contains(spec_hash_of(chunks.last())) {
            1int
        } else {
            0int
        })
    }
}

proof fn lemma_count_reused_push(s: Seq<CodeChunk>, c: CodeChunk, reuse: EmbeddingMap)
    ensures
        count_reused(s.push(c), reuse) == count_reused(s, reuse) + (
        if reuse.spec_contains(spec_hash_of(c)) {
            1int
        } else {
            0int
        }),
{
    assert(s.push(c).drop_last() =~= s);
    assert(s.push(c).last() == c);
}

/// The counters a reindex reports.
#[derive(Debug)]
pub struct ReindexCounts {
    /// Chunks saved.
    pub chunks: usize,
    /// Chunks that reused a stored embedding.
    pub reused: usize,
    /// Chunks that needed a fresh embedding.
    pub fresh: usize,
}

/// Save the new chunks of a reindexed file, reusing stored embeddings.
///
/// Called on the clean slate [`plan_reindex`] leaves: chunk `i` is stored
/// under `file_path` at index `i`, with the embedding of `reuse` under its
/// hash when present, else the fresh embedding supplied under key `i`.
/// The counters say exactly how many chunks reused an embedding.
pub fn apply_reindex(db: &mut Database, file_path: &[u8], chunks: &Vec<CodeChunk>, reuse: &EmbeddingMap, fresh: &EmbeddingMap) -> (counts: ReindexCounts)
    requires
        old(db).wf(),
        reuse.wf(),
        fresh.wf(),
        no_rows_for_path(*old(db), file_path@),
        distinct_chunk_hashes(chunks@),
        old(db).spec_next_id() + chunks@.len() <= i64::MAX,
        chunks@.len() <= i32::MAX,
        forall|i: int| 0 <= i < chunks@.len()
            && !reuse.spec_contains(spec_hash_of(#[trigger] chunks@[i]))
            ==> fresh.spec_contains(i as u64),
    ensures
        final(db).wf(),
        appended_chunk_rows(
            *old(db),
            *final(db),
            file_path@,
            chunks@,
            chosen_embeddings(chunks@, *reuse, *fresh),
        ),
        counts.chunks == chunks@.len(),
        counts.reused == count_reused(chunks@, *reuse),
        counts.reused + counts.fresh == chunks@.len(),
{
    let ghost pre = *db;
    let ghost embsv = chosen_embeddings(chunks@, *reuse, *fresh);
    let mut reused: usize = 0;
    let mut fresh_n: usize = 0;
    let mut i: usize = 0;
    while i < chunks.len()
        invariant
            db.wf(),
            pre.wf(),
            reuse.wf(),
            fresh.wf(),
            no_rows_for_path(pre, file_path@),
            distinct_chunk_hashes(chunks@),
            i <= chunks@.len(),
            chunks@.len() <= i32::MAX,
            pre.spec_next_id() + chunks@.len() <= i64::MAX,
            forall|x: int| 0 <= x < chunks@.len()
                && !reuse.spec_contains(spec_hash_of(#[trigger] chunks@[x]))
                ==> fresh.spec_contains(x as u64),
            embsv == chosen_embeddings(chunks@, *reuse, *fresh),
            reused == count_reused(chunks@.subrange(0, i as int), *reuse),
            reused + fresh_n == i,
            appended_chunk_rows(
                pre,
                *db,
                file_path@,
                chunks@.subrange(0, i as int),
                embsv.subrange(0, i as int),
            ),
        decreases chunks@.len() - i,
    {
        let ghost mid = *db;
        let chunk = &chunks[i];
        let h = chunk.hash();
        let emb: Vec<u8> = match reuse.get(h) {
            Some(e) => {
                reused = reused + 1;
                vstd::slice::slice_to_vec(e.as_slice())
            },
            None => {
                fresh_n = fresh_n + 1;
                match fresh.get(i as u64) {
                    Some(e) => vstd::slice::slice_to_vec(e.as_slice()),
                    None => {
                        proof {
                            assert(fresh.spec_contains(i as u64));
                        }
                        vstd::pervasive::unreached()
                    },
                }
            },
        };
        proof {
            assert(emb@ == embsv[i as int]);
            lemma_count_reused_push(chunks@.subrange(0, i as int), chunks@[i as int], *reuse);
            assert(chunks@.subrange(0, i + 1) =~= chunks@.subrange(0, i as int).push(
                chunks@[i as int],
            ));
        }
        let node_name: Option<Vec<u8>> = match &chunk.parent_name {
            Some(p) => Some(vstd::slice::slice_to_vec(p.as_slice())),
            None => None,
        };
        db.save_chunk(
            vstd::slice::slice_to_vec(file_path),
            i as i32,
            vstd::slice::slice_to_vec(chunk.kind.as_slice()),
            node_name,
            chunk.start_line,
            chunk.end_line,
            vstd::slice::slice_to_vec(chunk.content.as_slice()),
            h,
            emb,
        );
        proof {
            let c = chunks@[i as int];
            assert(!mid.spec_contains_key(file_path@, c.start_line, c.end_line, spec_hash_of(c)))
                by {
                if mid.spec_contains_key(file_path@, c.start_line, c.end_line, spec_hash_of(c)) {
                    let j = choose|j: int| 0 <= j < mid.rows().len()
                        && crate::db::row_has_key(
                            #[trigger] mid.rows()[j],
                            file_path@,
                            c.start_line,
                            c.end_line,
                            spec_hash_of(c),
                        );
                    if j < pre.rows().len() {
                        assert(mid.rows()[j] == pre.rows()[j]);
                        assert(pre.rows()[j].file_path@ != file_path@);
                    } else {
                        let x = j - pre.rows().len();
                        assert(row_of_chunk(
                            mid.rows()[pre.rows().len() + x],
                            mid.vecs()[pre.vecs().len() + x],
                            file_path@,
                            x,
                            chunks@.subrange(0, i as int)[x],
                            embsv.subrange(0, i as int)[x],
                        ));
                        assert(spec_hash_of(chunks@[x]) != spec_hash_of(c));
                    }
                }
            }
            assert forall|x: int| 0 <= x < i + 1 implies row_of_chunk(
                #[trigger] db.rows()[pre.rows().len() + x],
                db.vecs()[pre.vecs().len() + x],
                file_path@,
                x,
                chunks@.subrange(0, i + 1)[x],
                embsv.subrange(0, i + 1)[x],
            ) by {
                if x < i {
                    assert(db.rows()[pre.rows().len() + x] == mid.rows()[pre.rows().len() + x]);
                    assert(db.vecs()[pre.vecs().len() + x] == mid.vecs()[pre.vecs().len() + x]);
                    assert(chunks@.subrange(0, i + 1)[x] == chunks@.subrange(0, i as int)[x]);
                    assert(embsv.subrange(0, i + 1)[x] == embsv.subrange(0, i as int)[x]);
                } else {
                    assert(db.rows().last() == db.rows()[pre.rows().len() + x]);
                }
            }
            assert(db.rows().len() == mid.rows().len() + 1);
            assert forall|j: int| 0 <= j < pre.rows().len() implies #[trigger] db.rows()[j]
                == pre.rows()[j] && db.vecs()[j] == pre.vecs()[j] by {
                assert(db.rows()[j] == mid.rows()[j]);
                assert(db.vecs()[j] == mid.vecs()[j]);
            }
            assert(appended_chunk_rows(pre, *db, file_path@, chunks@.subrange(0, i + 1),
                embsv.subrange(0, i + 1)));
        }
        i = i + 1;
    }
    proof {
        assert(chunks@.subrange(0, chunks@.len() as int) =~= chunks@);
        assert(embsv.subrange(0, embsv.len() as int) =~= embsv);
    }
    ReindexCounts { chunks: chunks.len(), reused, fresh: fresh_n }
}

// ---------------------------------------------------------------------------
// Consequences of indexing
// ---------------------------------------------------------------------------

/// After a file's chunks are saved onto a clean slate, each chunk has
/// exactly one record with its `(file_path, start_line, end_line, hash)`
/// key: the one appended for it.
pub proof fn lemma_indexed_chunks_unique(db0: Database, db: Database, path: Seq<u8>, chunks: Seq<CodeChunk>, embs: Seq<Seq<u8>>)
    requires
        no_rows_for_path(db0, path),
        distinct_chunk_hashes(chunks),
        appended_chunk_rows(db0, db, path, chunks, embs),
    ensures
        forall|i: int| 0 <= i < chunks.len()
            ==> crate::db::row_has_key(
                #[trigger] db.rows()[db0.rows().len() + i],
                path,
                chunks[i].start_line,
                chunks[i].end_line,
                spec_hash_of(chunks[i]),
            ),
        forall|i: int, j: int| 0 <= i < chunks.len() && 0 <= j < db.rows().len()
            && crate::db::row_has_key(
                #[trigger] db.rows()[j],
                path,
                (#[trigger] chunks[i]).start_line,
                chunks[i].end_line,
                spec_hash_of(chunks[i]),
            )
            ==> j == db0.rows().len() + i,
{
    assert forall|i: int| 0 <= i < chunks.len() implies crate::db::row_has_key(
        #[trigger] db.rows()[db0.rows().len() + i],
        path,
        chunks[i].start_line,
        chunks[i].end_line,
        spec_hash_of(chunks[i]),
    ) by {
        assert(row_of_chunk(
            db.rows()[db0.rows().len() + i],
            db.vecs()[db0.vecs().len() + i],
            path,
            i,
            chunks[i],
            embs[i],
        ));
    }
    assert forall|i: int, j: int| 0 <= i < chunks.len() && 0 <= j < db.rows().len()
        && crate::db::row_has_key(
            #[trigger] db.rows()[j],
            path,
            (#[trigger] chunks[i]).start_line,
            chunks[i].end_line,
            spec_hash_of(chunks[i]),
        ) implies j == db0.rows().len() + i by {
        if j < db0.rows().len() {
            assert(db.rows()[j] == db0.rows()[j]);
            assert(db0.rows()[j].file_path@ != path);
        } else {
            let x = j - db0.rows().len();
            assert(row_of_chunk(
                db.rows()[db0.rows().len() + x],
                db.vecs()[db0.vecs().len() + x],
                path,
                x,
                chunks[x],
                embs[x],
            ));
            assert(spec_hash_of(chunks[x]) == spec_hash_of(chunks[i]));
            if x != i {
                if x < i {
                    assert(spec_hash_of(chunks[x]) != spec_hash_of(chunks[i]));
                } else {
                    assert(spec_hash_of(chunks[i]) != spec_hash_of(chunks[x]));
                }
            }
        }
    }
}

/// After a file's chunks are saved, every chunk's key is present, so
/// saving the same chunks again (an unchanged tree indexed twice) leaves
/// the store untouched, by the contract of [`index_file`].
pub proof fn lemma_appended_keys_present(db0: Database, db: Database, path: Seq<u8>, chunks: Seq<CodeChunk>, embs: Seq<Seq<u8>>)
    requires
        appended_chunk_rows(db0, db, path, chunks, embs),
    ensures
        forall|i: int| 0 <= i < chunks.len()
            ==> chunk_key_present(db, path, #[trigger] chunks[i]),
{
    assert forall|i: int| 0 <= i < chunks.len() implies chunk_key_present(
        db,
        path,
        #[trigger] chunks[i],
    ) by {
        assert(row_of_chunk(
            db.rows()[db0.rows().len() + i],
            db.vecs()[db0.vecs().len() + i],
            path,
            i,
            chunks[i],
            embs[i],
        ));
        assert(crate::db::row_has_key(
            db.rows()[db0.rows().len() + i],
            path,
            chunks[i].start_line,
            chunks[i].end_line,
            spec_hash_of(chunks[i]),
        ));
    }
}

/// Two stores that each had the same chunks saved with the same embedding
/// choices hold, record for record, the same
/// `(start_line, end_line, hash, embedding)` tuples for the file: deleting
/// a file and reindexing unchanged content restores the original tuples.
pub proof fn lemma_same_chunks_same_tuples(a0: Database, a: Database, b0: Database, b: Database, path: Seq<u8>, chunks: Seq<CodeChunk>, embs: Seq<Seq<u8>>)
    requires
        appended_chunk_rows(a0, a, path, chunks, embs),
        appended_chunk_rows(b0, b, path, chunks, embs),
    ensures
        forall|i: int| 0 <= i < chunks.len() ==> {
            let ra = #[trigger] a.rows()[a0.rows().len() + i];
            let rb = b.rows()[b0.rows().len() + i];
            ra.start_line == rb.start_line && ra.end_line == rb.end_line && ra.hash == rb.hash
                && a.vecs()[a0.vecs().len() + i].embedding@ == b.vecs()[b0.vecs().len()
                + i].embedding@
        },
{
    assert forall|i: int| 0 <= i < chunks.len() implies {
        let ra = #[trigger] a.rows()[a0.rows().len() + i];
        let rb = b.rows()[b0.rows().len() + i];
        ra.start_line == rb.start_line && ra.end_line == rb.end_line && ra.hash == rb.hash
            && a.vecs()[a0.vecs().len() + i].embedding@ == b.vecs()[b0.vecs().len()
            + i].embedding@
    } by {
        assert(row_of_chunk(
            a.rows()[a0.rows().len() + i],
            a.vecs()[a0.vecs().len() + i],
            path,
            i,
            chunks[i],
            embs[i],
        ));
        assert(row_of_chunk(
            b.rows()[b0.rows().len() + i],
            b.vecs()[b0.vecs().len() + i],
            path,
            i,
            chunks[i],
            embs[i],
        ));
    }
}

/// When every chunk's hash is already stored — a change that touched no
/// definition — every embedding is reused and none is recomputed.
pub proof fn lemma_full_reuse_counts(chunks: Seq<CodeChunk>, reuse: EmbeddingMap)
    requires
        forall|i: int| 0 <= i < chunks.len()
            ==> reuse.spec_contains(spec_hash_of(#[trigger] chunks[i])),
    ensures
        count_reused(chunks, reuse) == chunks.len(),
    decreases chunks.len(),
{
    if chunks.len() > 0 {
        assert(chunks.last() == chunks[chunks.len() - 1]);
        lemma_full_reuse_counts(chunks.drop_last(), reuse);
    }
}

// ---------------------------------------------------------------------------
// Candidate files
// ---------------------------------------------------------------------------

/// A candidate file: its path and the metadata attached when it was
/// enumerated (size in bytes and modification time in milliseconds).
#[derive(Debug)]
pub struct FileInfo {
    pub path: Vec<u8>,
    pub size: u64,
    pub modified_ms: u64,
}

/// The extensions of the recognized languages.
pub open spec fn spec_default_extensions() -> Seq<Seq<u8>> {
    seq![seq![114u8, 115u8], seq![112u8, 121u8], seq![106u8, 115u8], seq![116u8, 115u8]]
}

/// Does `path` carry one of the extensions in `exts`?
pub open spec fn spec_valid_extension(exts: Seq<Seq<u8>>, path: Seq<u8>) -> bool {
    match spec_extension(path) {
        Some(e) => exts.contains(e),
        None => false,
    }
}

/// The files of `files` whose path has an accepted extension, in order.
pub open spec fn spec_filter_valid(exts: Seq<Seq<u8>>, files: Seq<FileInfo>) -> Seq<FileInfo>
    decreases files.len(),
{
    if files.len() == 0 {
        Seq::empty()
    } else {
        let rest = spec_filter_valid(exts, files.drop_last());
        if spec_valid_extension(exts, files.last().path@) {
            rest.push(files.last())
        } else {
            rest
        }
    }
}

proof fn lemma_filter_valid_push(exts: Seq<Seq<u8>>, files: Seq<FileInfo>, f: FileInfo)
    ensures
        spec_filter_valid(exts, files.push(f)) == (
            if spec_valid_extension(exts, f.path@) {
                spec_filter_valid(exts, files).push(f)
            } else {
                spec_filter_valid(exts, files)
            }
        ),
{
    assert(files.push(f).drop_last() =~= files);
    assert(files.push(f).last() == f);
}

/// Selects the files worth indexing by their extension.
pub struct Indexer {
    pub include_extensions: Vec<Vec<u8>>,
}

impl Indexer {
    /// The extensions this indexer accepts, as byte strings.
    pub open spec fn spec_extensions(self) -> Seq<Seq<u8>> {
        self.include_extensions@.map_values(|e: Vec<u8>| e@)
    }

    /// An indexer accepting the recognized language extensions.
    pub fn new() -> (r: Indexer)
        ensures
            r.spec_extensions() == spec_default_extensions(),
    {
        let mut exts: Vec<Vec<u8>> = Vec::new();
        let mut e: Vec<u8> = Vec::new();
        e.push(114);
        e.push(115);
        exts.push(e);
        let mut e: Vec<u8> = Vec::new();
        e.push(112);
        e.push(121);
        exts.push(e);
        let mut e: Vec<u8> = Vec::new();
        e.push(106);
        e.push(115);
        exts.push(e);
        let mut e: Vec<u8> = Vec::new();
        e.push(116);
        e.push(115);
        exts.push(e);
        let r = Indexer { include_extensions: exts };
        proof {
            assert(r.spec_extensions()[0] =~= spec_default_extensions()[0]);
            assert(r.spec_extensions()[1] =~= spec_default_extensions()[1]);
            assert(r.spec_extensions()[2] =~= spec_default_extensions()[2]);
            assert(r.spec_extensions()[3] =~= spec_default_extensions()[3]);
            assert(r.spec_extensions() =~= spec_default_extensions());
        }
        r
    }

    /// Does `path` carry an accepted extension?
    pub fn is_valid_extension(&self, path: &[u8]) -> (r: bool)
        ensures
            r == spec_valid_extension(self.spec_extensions(), path@),
    {
        match crate::chunker::extension_of(path) {
            Some(ext) => {
                proof {
                    assert(spec_extension(path@) == Some(ext@));
                }
                let mut i: usize = 0;
                while i < self.include_extensions.len()
                    invariant
                        spec_extension(path@) == Some(ext@),
                        i <= self.include_extensions@.len(),
                        forall|j: int| 0 <= j < i
                            ==> (#[trigger] self.include_extensions@[j])@ != ext@,
                    decreases self.include_extensions@.len() - i,
                {
                    if crate::db::compare_bytes(
                        self.include_extensions[i].as_slice(),
                        ext.as_slice(),
                    ) {
                        proof {
                            assert(self.spec_extensions()[i as int] == ext@);
                            assert(self.spec_extensions().contains(ext@));
                        }
                        return true;
                    }
                    i = i + 1;
                }
                proof {
                    if self.spec_extensions().contains(ext@) {
                        let j = choose|j: int| 0 <= j < self.spec_extensions().len()
                            && self.spec_extensions()[j] == ext@;
                        assert(self.include_extensions@[j]@ == ext@);
                    }
                }
                false
            },
            None => false,
        }
    }

    /// Keep the candidate files whose extension is accepted; everything
    /// else — and with it any path a later stat or read would fail on for
    /// want of an indexable file — is dropped.
    pub fn index_files(&self, files: Vec<FileInfo>) -> (r: Vec<FileInfo>)
        ensures
            r@ == spec_filter_valid(self.spec_extensions(), files@),
    {
        let ghost all = files@;
        let ghost n = files@.len() as int;
        let mut files = files;
        let mut r: Vec<FileInfo> = Vec::new();
        proof {
            assert(all.subrange(0, 0) =~= Seq::<FileInfo>::empty());
        }
        while files.len() > 0
            invariant
                files@.len() <= n,
                files@ =~= all.subrange(n - files@.len(), n),
                n == all.len(),
                r@ == spec_filter_valid(self.spec_extensions(), all.subrange(0, n - files@.len())),
            decreases files@.len(),
        {
            let ghost k = n - files@.len();
            let ghost fpre = files@;
            let f = files.remove(0);
            proof {
                assert(fpre[0] == all.subrange(k, n)[0]);
                assert(f == all[k]);
                assert(all.subrange(0, k + 1) =~= all.subrange(0, k).push(f));
                lemma_filter_valid_push(self.spec_extensions(), all.subrange(0, k), f);
                assert(files@ =~= all.subrange(n - files@.len(), n));
            }
            if self.is_valid_extension(f.path.as_slice()) {
                r.push(f);
            }
        }
        proof {
            assert(all.subrange(0, n) =~= all);
        }
        r
    }
}

} // verus!
