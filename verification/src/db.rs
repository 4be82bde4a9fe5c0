//! The chunk store: a metadata table of chunk records paired with a vector
//! table of embeddings.
//!
//! The store keeps two tables.  `chunks` holds one record per stored chunk;
//! `vectors` holds, at the same position, the packed embedding for that
//! record.  Records are keyed for uniqueness by
//! `(file_path, start_line, end_line, hash)`: saving a chunk whose key is
//! already present leaves the store unchanged.  Every operation preserves the
//! pairing invariant: the two tables have equal length, paired rows carry the
//! same `row_id`, and `row_id`s are strictly increasing.
//!
//! Text is carried as UTF-8 bytes (`Vec<u8>`); an embedding is the
//! little-endian byte packing of a fixed-dimension vector of 32-bit floats,
//! so it occupies [`EMBEDDING_BYTES`] bytes.

use vstd::prelude::*;

verus! {

/// Dimension of an embedding vector.
pub const EMBEDDING_DIM: usize = 1024;

/// Byte length of a packed embedding: four bytes per 32-bit component.
pub const EMBEDDING_BYTES: usize = EMBEDDING_DIM * 4;

/// One row of the chunk metadata table.
#[derive(Debug)]
pub struct ChunkRow {
    pub row_id: i64,
    pub file_path: Vec<u8>,
    pub chunk_index: i32,
    pub node_type: Vec<u8>,
    pub node_name: Option<Vec<u8>>,
    pub start_line: usize,
    pub end_line: usize,
    pub text: Vec<u8>,
    pub hash: u64,
}

/// One row of the vector table.
#[derive(Debug)]
pub struct VectorRow {
    pub row_id: i64,
    pub embedding: Vec<u8>,
}

/// Does `r` carry the uniqueness key `(path, start_line, end_line, hash)`?
pub open spec fn row_has_key(r: ChunkRow, path: Seq<u8>, start_line: usize, end_line: usize, hash: u64) -> bool {
    &&& r.file_path@ == path
    &&& r.start_line == start_line
    &&& r.end_line == end_line
    &&& r.hash == hash
}

/// The chunk store.
pub struct Database {
    pub chunks: Vec<ChunkRow>,
    pub vectors: Vec<VectorRow>,
    pub next_row_id: i64,
}

impl Database {
    /// The chunk records, in insertion order.
    pub open spec fn rows(self) -> Seq<ChunkRow> {
        self.chunks@
    }

    /// The vector records, in insertion order.
    pub open spec fn vecs(self) -> Seq<VectorRow> {
        self.vectors@
    }

    /// The row id the next inserted record will receive.
    pub open spec fn spec_next_id(self) -> i64 {
        self.next_row_id
    }

    /// Store invariant: the two tables pair up row for row, row ids are
    /// strictly increasing and below the next id, and every stored embedding
    /// has the fixed packed length.
    pub open spec fn wf(self) -> bool {
        &&& self.chunks@.len() == self.vectors@.len()
        &&& forall|i: int| 0 <= i < self.chunks@.len()
                ==> (#[trigger] self.chunks@[i]).row_id == self.vectors@[i].row_id
        &&& forall|i: int| 0 <= i < self.chunks@.len()
                ==> (#[trigger] self.chunks@[i]).row_id < self.next_row_id
        &&& forall|i: int, j: int| 0 <= i < j < self.chunks@.len()
                ==> (#[trigger] self.chunks@[i]).row_id < (#[trigger] self.chunks@[j]).row_id
        &&& forall|i: int| 0 <= i < self.vectors@.len()
                ==> (#[trigger] self.vectors@[i]).embedding@.len() == EMBEDDING_BYTES
        &&& self.next_row_id >= 1
    }

    /// Is a record with this uniqueness key present?
    pub open spec fn spec_contains_key(self, path: Seq<u8>, start_line: usize, end_line: usize, hash: u64) -> bool {
        exists|i: int| 0 <= i < self.rows().len()
            && row_has_key(#[trigger] self.rows()[i], path, start_line, end_line, hash)
    }

    /// An empty store.
    pub fn new() -> (db: Database)
        ensures
            db.wf(),
            db.rows().len() == 0,
            db.vecs().len() == 0,
            db.spec_next_id() == 1,
    {
        Database { chunks: Vec::new(), vectors: Vec::new(), next_row_id: 1 }
    }

    /// Is a record with the key `(file_path, start_line, end_line, hash)` present?
    pub fn contains_key(&self, file_path: &[u8], start_line: usize, end_line: usize, hash: u64) -> (r: bool)
        ensures
            r == self.spec_contains_key(file_path@, start_line, end_line, hash),
    {
        let mut i: usize = 0;
        while i < self.chunks.len()
            invariant
                i <= self.chunks@.len(),
                forall|j: int| 0 <= j < i
                    ==> !row_has_key(#[trigger] self.chunks@[j], file_path@, start_line, end_line, hash),
            decreases self.chunks@.len() - i,
        {
            let row = &self.chunks[i];
            if compare_bytes(&row.file_path, file_path)
                && row.start_line == start_line
                && row.end_line == end_line
                && row.hash == hash
            {
                proof {
                    assert(row_has_key(self.rows()[i as int], file_path@, start_line, end_line, hash));
                }
                return true;
            }
            i = i + 1;
        }
        false
    }

    /// Save one chunk record together with its embedding.
    ///
    /// Mirrors the transactional insert of the persistent store: if the
    /// uniqueness key is already present, neither table changes; otherwise a
    /// chunk record and its vector record are appended together under a fresh
    /// row id.
    pub fn save_chunk(
        &mut self,
        file_path: Vec<u8>,
        chunk_index: i32,
        node_type: Vec<u8>,
        node_name: Option<Vec<u8>>,
        start_line: usize,
        end_line: usize,
        text: Vec<u8>,
        chunk_hash: u64,
        embedding: Vec<u8>,
    )
        requires
            old(self).wf(),
            old(self).spec_next_id() < i64::MAX,
            embedding@.len() == EMBEDDING_BYTES,
        ensures
            final(self).wf(),
            old(self).spec_contains_key(file_path@, start_line, end_line, chunk_hash)
                ==> *final(self) == *old(self),
            !old(self).spec_contains_key(file_path@, start_line, end_line, chunk_hash) ==> {
                &&& final(self).rows() == old(self).rows().push(
                    (ChunkRow {
                        row_id: old(self).spec_next_id(),
                        file_path: file_path,
                        chunk_index: chunk_index,
                        node_type: node_type,
                        node_name: node_name,
                        start_line: start_line,
                        end_line: end_line,
                        text: text,
                        hash: chunk_hash,
                    }))
                &&& final(self).vecs() == old(self).vecs().push(
                    (VectorRow { row_id: old(self).spec_next_id(), embedding: embedding }))
                &&& final(self).spec_next_id() == old(self).spec_next_id() + 1
            },
    {
        if self.contains_key(file_path.as_slice(), start_line, end_line, chunk_hash) {
            return;
        }
        let row_id: i64 = self.next_row_id;
        self.chunks.push(ChunkRow {
            row_id,
            file_path,
            chunk_index,
            node_type,
            node_name,
            start_line,
            end_line,
            text,
            hash: chunk_hash,
        });
        self.vectors.push(VectorRow { row_id, embedding });
        self.next_row_id = self.next_row_id + 1;
    }
}

impl Database {
    /// Does some record under `path` carry the content hash `h`?
    pub open spec fn spec_has_hash(self, path: Seq<u8>, h: u64) -> bool {
        exists|i: int| 0 <= i < self.rows().len()
            && (#[trigger] self.rows()[i]).file_path@ == path && self.rows()[i].hash == h
    }

    /// Is `emb` the stored embedding of some record under `path` with
    /// content hash `h`?
    pub open spec fn spec_hash_embedding_at(self, path: Seq<u8>, h: u64, emb: Seq<u8>) -> bool {
        exists|i: int| 0 <= i < self.rows().len()
            && (#[trigger] self.rows()[i]).file_path@ == path
            && self.rows()[i].hash == h
            && self.vecs()[i].embedding@ == emb
    }

    /// Collect, for every record under `file_path`, its content hash and its
    /// stored embedding, so a reindex of that file can reuse them.
    pub fn get_chunks_with_embeddings(&self, file_path: &[u8]) -> (r: EmbeddingMap)
        requires
            self.wf(),
        ensures
            r.wf(),
            forall|h: u64| #[trigger] r.spec_contains(h) <==> self.spec_has_hash(file_path@, h),
            forall|h: u64| #[trigger] r.spec_contains(h)
                ==> self.spec_hash_embedding_at(file_path@, h, r.spec_get(h)),
    {
        let mut r = EmbeddingMap::new();
        let mut k: usize = 0;
        while k < self.chunks.len()
            invariant
                self.wf(),
                k <= self.rows().len(),
                r.wf(),
                forall|h: u64| #[trigger] r.spec_contains(h) <==> exists|i: int| 0 <= i < k
                    && (#[trigger] self.rows()[i]).file_path@ == file_path@
                    && self.rows()[i].hash == h,
                forall|h: u64| #[trigger] r.spec_contains(h) ==> exists|i: int| 0 <= i < k
                    && (#[trigger] self.rows()[i]).file_path@ == file_path@
                    && self.rows()[i].hash == h
                    && self.vecs()[i].embedding@ == r.spec_get(h),
            decreases self.rows().len() - k,
        {
            let ghost prev = r;
            if compare_bytes(self.chunks[k].file_path.as_slice(), file_path) {
                let h: u64 = self.chunks[k].hash;
                let emb: Vec<u8> = vstd::slice::slice_to_vec(self.vectors[k].embedding.as_slice());
                r.insert(h, emb);
                proof {
                    assert(r.spec_get(h) == self.vecs()[k as int].embedding@);
                    assert forall|h2: u64| #[trigger] r.spec_contains(h2) implies exists|i: int|
                        0 <= i < k + 1
                        && (#[trigger] self.rows()[i]).file_path@ == file_path@
                        && self.rows()[i].hash == h2
                        && self.vecs()[i].embedding@ == r.spec_get(h2) by {
                        if h2 == h {
                            assert(self.rows()[k as int].file_path@ == file_path@
                                && self.rows()[k as int].hash == h2
                                && self.vecs()[k as int].embedding@ == r.spec_get(h2));
                        } else {
                            assert(prev.spec_contains(h2));
                            assert(r.spec_get(h2) == prev.spec_get(h2));
                        }
                    }
                }
            } else {
                proof {
                    assert forall|h2: u64| #[trigger] r.spec_contains(h2) implies exists|i: int|
                        0 <= i < k + 1
                        && (#[trigger] self.rows()[i]).file_path@ == file_path@
                        && self.rows()[i].hash == h2 by {
                        let i = choose|i: int| 0 <= i < k
                            && (#[trigger] self.rows()[i]).file_path@ == file_path@
                            && self.rows()[i].hash == h2;
                        assert(0 <= i < k + 1 && self.rows()[i].file_path@ == file_path@
                            && self.rows()[i].hash == h2);
                    }
                }
            }
            k = k + 1;
        }
        r
    }
}

/// The chunk records that survive deleting every record under `path`,
/// in their original order.
pub open spec fn surviving_rows(rows: Seq<ChunkRow>, path: Seq<u8>) -> Seq<ChunkRow>
    decreases rows.len(),
{
    if rows.len() == 0 {
        Seq::empty()
    } else {
        let rest = surviving_rows(rows.drop_last(), path);
        if rows.last().file_path@ == path {
            rest
        } else {
            rest.push(rows.last())
        }
    }
}

/// The vector records paired with [`surviving_rows`]: the vector at each
/// position survives exactly when the chunk record at that position does.
pub open spec fn surviving_vectors(rows: Seq<ChunkRow>, vecs: Seq<VectorRow>, path: Seq<u8>) -> Seq<VectorRow>
    decreases rows.len(),
{
    if rows.len() == 0 || vecs.len() == 0 {
        Seq::empty()
    } else {
        let rest = surviving_vectors(rows.drop_last(), vecs.drop_last(), path);
        if rows.last().file_path@ == path {
            rest
        } else {
            rest.push(vecs.last())
        }
    }
}

/// Extending the table by one row extends the surviving rows accordingly.
pub proof fn lemma_surviving_push(rows: Seq<ChunkRow>, vecs: Seq<VectorRow>, x: ChunkRow, v: VectorRow, path: Seq<u8>)
    requires
        rows.len() == vecs.len(),
    ensures
        surviving_rows(rows.push(x), path) == (
            if x.file_path@ == path {
                surviving_rows(rows, path)
            } else {
                surviving_rows(rows, path).push(x)
            }
        ),
        surviving_vectors(rows.push(x), vecs.push(v), path) == (
            if x.file_path@ == path {
                surviving_vectors(rows, vecs, path)
            } else {
                surviving_vectors(rows, vecs, path).push(v)
            }
        ),
{
    assert(rows.push(x).drop_last() =~= rows);
    assert(vecs.push(v).drop_last() =~= vecs);
    assert(rows.push(x).last() == x);
    assert(vecs.push(v).last() == v);
}

/// A record survives deletion of `path` exactly when it does not lie under
/// `path`; surviving records come from the original table.
pub proof fn lemma_surviving_rows_membership(rows: Seq<ChunkRow>, path: Seq<u8>)
    ensures
        forall|r: ChunkRow| #[trigger] surviving_rows(rows, path).contains(r)
            <==> (rows.contains(r) && r.file_path@ != path),
    decreases rows.len(),
{
    let sv = surviving_rows(rows, path);
    if rows.len() == 0 {
        assert forall|r: ChunkRow| #[trigger] sv.contains(r) implies (rows.contains(r)
            && r.file_path@ != path) by {}
        assert forall|r: ChunkRow| rows.contains(r) && r.file_path@ != path implies #[trigger] sv
            .contains(r) by {}
    } else {
        let prefix = rows.drop_last();
        lemma_surviving_rows_membership(prefix, path);
        let rest = surviving_rows(prefix, path);
        assert forall|r: ChunkRow| #[trigger] sv.contains(r) implies (rows.contains(r)
            && r.file_path@ != path) by {
            if rest.contains(r) {
                let i = choose|i: int| 0 <= i < prefix.len() && prefix[i] == r;
                assert(rows[i] == r);
            } else {
                assert(r == rows.last());
                assert(rows[rows.len() - 1] == r);
            }
        }
        assert forall|r: ChunkRow| rows.contains(r) && r.file_path@ != path implies #[trigger] sv
            .contains(r) by {
            let i = choose|i: int| 0 <= i < rows.len() && rows[i] == r;
            if i < rows.len() - 1 {
                assert(prefix[i] == r);
                assert(prefix.contains(r));
                assert(rest.contains(r));
                if rows.last().file_path@ != path {
                    let j = choose|j: int| 0 <= j < rest.len() && rest[j] == r;
                    assert(sv[j] == r);
                }
            } else {
                assert(r == rows.last());
                assert(sv.last() == r);
            }
        }
    }
}

/// Filtering both tables at the same positions preserves the store
/// invariant, and every surviving row avoids `path`.
proof fn lemma_surviving_wf(rows: Seq<ChunkRow>, vecs: Seq<VectorRow>, path: Seq<u8>, next_id: i64)
    requires
        rows.len() == vecs.len(),
        forall|i: int| 0 <= i < rows.len() ==> (#[trigger] rows[i]).row_id == vecs[i].row_id,
        forall|i: int| 0 <= i < rows.len() ==> (#[trigger] rows[i]).row_id < next_id,
        forall|i: int, j: int| 0 <= i < j < rows.len()
            ==> (#[trigger] rows[i]).row_id < (#[trigger] rows[j]).row_id,
        forall|i: int| 0 <= i < vecs.len()
            ==> (#[trigger] vecs[i]).embedding@.len() == EMBEDDING_BYTES,
    ensures
        surviving_rows(rows, path).len() == surviving_vectors(rows, vecs, path).len(),
        forall|k: int| 0 <= k < surviving_rows(rows, path).len()
            ==> (#[trigger] surviving_rows(rows, path)[k]).row_id
                == surviving_vectors(rows, vecs, path)[k].row_id,
        forall|k: int| 0 <= k < surviving_rows(rows, path).len()
            ==> (#[trigger] surviving_rows(rows, path)[k]).row_id < next_id,
        forall|k1: int, k2: int| 0 <= k1 < k2 < surviving_rows(rows, path).len()
            ==> (#[trigger] surviving_rows(rows, path)[k1]).row_id
                < (#[trigger] surviving_rows(rows, path)[k2]).row_id,
        forall|k: int| 0 <= k < surviving_vectors(rows, vecs, path).len()
            ==> (#[trigger] surviving_vectors(rows, vecs, path)[k]).embedding@.len()
                == EMBEDDING_BYTES,
        forall|k: int| 0 <= k < surviving_rows(rows, path).len()
            ==> (#[trigger] surviving_rows(rows, path)[k]).file_path@ != path,
        forall|k: int| 0 <= k < surviving_rows(rows, path).len()
            ==> rows.contains(#[trigger] surviving_rows(rows, path)[k]),
    decreases rows.len(),
{
    if rows.len() == 0 {
    } else {
        let prefix = rows.drop_last();
        let vprefix = vecs.drop_last();
        lemma_surviving_wf(prefix, vprefix, path, next_id);
        let rest = surviving_rows(prefix, path);
        let vrest = surviving_vectors(prefix, vprefix, path);
        let sv = surviving_rows(rows, path);
        let vv = surviving_vectors(rows, vecs, path);
        assert forall|k: int| 0 <= k < rest.len() implies rows.contains(#[trigger] rest[k]) by {
            assert(prefix.contains(rest[k]));
            let i = choose|i: int| 0 <= i < prefix.len() && prefix[i] == rest[k];
            assert(rows[i] == rest[k]);
        }
        if rows.last().file_path@ == path {
            assert(sv == rest);
            assert(vv == vrest);
        } else {
            assert(sv == rest.push(rows.last()));
            assert(vv == vrest.push(vecs.last()));
            assert forall|k: int| 0 <= k < rest.len() implies (#[trigger] rest[k]).row_id
                < rows.last().row_id by {
                let i = choose|i: int| 0 <= i < prefix.len() && prefix[i] == rest[k];
                assert(rows[i].row_id < rows[rows.len() - 1].row_id);
            }
            assert forall|k: int| 0 <= k < sv.len() implies rows.contains(#[trigger] sv[k]) by {
                if k < rest.len() {
                    assert(rows.contains(rest[k]));
                } else {
                    assert(sv[k] == rows[rows.len() - 1]);
                }
            }
        }
    }
}

impl Database {
    /// Delete every chunk record and vector record stored under `file_path`.
    ///
    /// Both tables lose exactly the rows at the positions whose chunk record
    /// lies under `file_path`; all other rows survive in order.
    pub fn delete_file(&mut self, file_path: &[u8])
        requires
            old(self).wf(),
        ensures
            final(self).wf(),
            final(self).rows() == surviving_rows(old(self).rows(), file_path@),
            final(self).vecs() == surviving_vectors(old(self).rows(), old(self).vecs(), file_path@),
            final(self).spec_next_id() == old(self).spec_next_id(),
            forall|i: int| 0 <= i < final(self).rows().len()
                ==> (#[trigger] final(self).rows()[i]).file_path@ != file_path@,
    {
        let ghost pre = *self;
        let mut src_chunks: Vec<ChunkRow> = Vec::new();
        let mut src_vectors: Vec<VectorRow> = Vec::new();
        core::mem::swap(&mut src_chunks, &mut self.chunks);
        core::mem::swap(&mut src_vectors, &mut self.vectors);
        let ghost n: int = src_chunks@.len() as int;
        proof {
            assert(self.chunks@ =~= surviving_rows(pre.rows().subrange(0, 0), file_path@));
            assert(self.vectors@ =~= surviving_vectors(
                pre.rows().subrange(0, 0),
                pre.vecs().subrange(0, 0),
                file_path@,
            ));
        }
        while src_chunks.len() > 0
            invariant
                pre.wf(),
                src_chunks@.len() == src_vectors@.len(),
                src_chunks@.len() <= n,
                src_chunks@ =~= pre.rows().subrange(n - src_chunks@.len(), n),
                src_vectors@ =~= pre.vecs().subrange(n - src_chunks@.len(), n),
                n == pre.rows().len(),
                self.chunks@ == surviving_rows(pre.rows().subrange(0, n - src_chunks@.len()), file_path@),
                self.vectors@ == surviving_vectors(
                    pre.rows().subrange(0, n - src_chunks@.len()),
                    pre.vecs().subrange(0, n - src_chunks@.len()),
                    file_path@,
                ),
                self.next_row_id == pre.spec_next_id(),
            decreases src_chunks@.len(),
        {
            let ghost k: int = n - src_chunks@.len();
            let ghost src0 = src_chunks@;
            let ghost vsrc0 = src_vectors@;
            let row = src_chunks.remove(0);
            let vrow = src_vectors.remove(0);
            proof {
                assert(src0[0] == pre.rows().subrange(k, n)[0]);
                assert(vsrc0[0] == pre.vecs().subrange(k, n)[0]);
                assert(row == pre.rows()[k]);
                assert(vrow == pre.vecs()[k]);
                assert(pre.rows().subrange(0, k + 1) =~= pre.rows().subrange(0, k).push(row));
                assert(pre.vecs().subrange(0, k + 1) =~= pre.vecs().subrange(0, k).push(vrow));
                lemma_surviving_push(
                    pre.rows().subrange(0, k),
                    pre.vecs().subrange(0, k),
                    row,
                    vrow,
                    file_path@,
                );
                assert(src_chunks@ =~= pre.rows().subrange(n - src_chunks@.len(), n as int));
                assert(src_vectors@ =~= pre.vecs().subrange(n - src_chunks@.len(), n as int));
            }
            if !compare_bytes(row.file_path.as_slice(), file_path) {
                self.chunks.push(row);
                self.vectors.push(vrow);
            }
        }
        proof {
            assert(pre.rows().subrange(0, n as int) =~= pre.rows());
            assert(pre.vecs().subrange(0, n as int) =~= pre.vecs());
            lemma_surviving_wf(pre.rows(), pre.vecs(), file_path@, pre.spec_next_id());
        }
    }

    /// Delete every record stored under any of `file_paths`.
    ///
    /// Equivalent to deleting the files one at a time; afterwards no record
    /// lies under any of the given paths, and a record survives exactly when
    /// its path is not among them.
    pub fn delete_files(&mut self, file_paths: &Vec<Vec<u8>>)
        requires
            old(self).wf(),
        ensures
            final(self).wf(),
            final(self).spec_next_id() == old(self).spec_next_id(),
            forall|r: ChunkRow| #[trigger] final(self).rows().contains(r)
                <==> (old(self).rows().contains(r)
                    && !(exists|p: int| 0 <= p < file_paths@.len()
                        && (#[trigger] file_paths@[p])@ == r.file_path@)),
    {
        let ghost pre = *self;
        let mut p: usize = 0;
        while p < file_paths.len()
            invariant
                pre.wf(),
                self.wf(),
                p <= file_paths@.len(),
                self.spec_next_id() == pre.spec_next_id(),
                forall|r: ChunkRow| #[trigger] self.rows().contains(r)
                    <==> (pre.rows().contains(r)
                        && !(exists|q: int| 0 <= q < p
                            && (#[trigger] file_paths@[q])@ == r.file_path@)),
            decreases file_paths@.len() - p,
        {
            let ghost mid = *self;
            self.delete_file(file_paths[p].as_slice());
            proof {
                lemma_surviving_rows_membership(mid.rows(), file_paths@[p as int]@);
                assert forall|r: ChunkRow| #[trigger] self.rows().contains(r) implies (
                    pre.rows().contains(r)
                    && !(exists|q: int| 0 <= q < p + 1
                        && (#[trigger] file_paths@[q])@ == r.file_path@)) by {
                    assert(mid.rows().contains(r));
                    assert(r.file_path@ != file_paths@[p as int]@);
                }
                assert forall|r: ChunkRow| pre.rows().contains(r)
                    && !(exists|q: int| 0 <= q < p + 1
                        && (#[trigger] file_paths@[q])@ == r.file_path@)
                    implies #[trigger] self.rows().contains(r) by {
                    assert(!(exists|q: int| 0 <= q < p
                        && (#[trigger] file_paths@[q])@ == r.file_path@));
                    assert(mid.rows().contains(r));
                    assert(r.file_path@ != file_paths@[p as int]@);
                }
            }
            p = p + 1;
        }
    }
}

/// A map from a 64-bit content hash to a stored embedding, used to carry
/// embeddings out of the store for reuse.
pub struct EmbeddingMap {
    pub entries: Vec<(u64, Vec<u8>)>,
}

impl EmbeddingMap {
    /// Map invariant: keys are distinct and every value has the fixed
    /// packed embedding length.
    pub open spec fn wf(self) -> bool {
        &&& forall|i: int, j: int| 0 <= i < j < self.entries@.len()
                ==> (#[trigger] self.entries@[i]).0 != (#[trigger] self.entries@[j]).0
        &&& forall|i: int| 0 <= i < self.entries@.len()
                ==> (#[trigger] self.entries@[i]).1@.len() == EMBEDDING_BYTES
    }

    /// Is `key` present?
    pub open spec fn spec_contains(self, key: u64) -> bool {
        exists|i: int| 0 <= i < self.entries@.len() && (#[trigger] self.entries@[i]).0 == key
    }

    /// The position of `key` among the entries.
    pub open spec fn spec_index_of(self, key: u64) -> int {
        choose|i: int| 0 <= i < self.entries@.len() && (#[trigger] self.entries@[i]).0 == key
    }

    /// The value stored under `key`.
    pub open spec fn spec_get(self, key: u64) -> Seq<u8> {
        self.entries@[self.spec_index_of(key)].1@
    }

    /// Under the invariant, any entry holding `key` determines the value.
    pub proof fn lemma_get_at(self, i: int)
        requires
            self.wf(),
            0 <= i < self.entries@.len(),
        ensures
            self.spec_contains(self.entries@[i].0),
            self.spec_index_of(self.entries@[i].0) == i,
            self.spec_get(self.entries@[i].0) == self.entries@[i].1@,
    {
        let key = self.entries@[i].0;
        assert(self.spec_contains(key));
        let j = self.spec_index_of(key);
        assert(0 <= j < self.entries@.len() && self.entries@[j].0 == key);
        if i < j {
            assert(self.entries@[i].0 != self.entries@[j].0);
        }
        if j < i {
            assert(self.entries@[j].0 != self.entries@[i].0);
        }
    }

    /// An empty map.
    pub fn new() -> (m: EmbeddingMap)
        ensures
            m.wf(),
            m.entries@.len() == 0,
            forall|key: u64| !m.spec_contains(key),
    {
        EmbeddingMap { entries: Vec::new() }
    }

    /// The number of keys present.
    pub fn len(&self) -> (n: usize)
        ensures
            n == self.entries@.len(),
    {
        self.entries.len()
    }

    /// The position of the entry holding `key`, if one is present.
    fn position_of(&self, key: u64) -> (r: Option<usize>)
        ensures
            match r {
                Some(i) => i < self.entries@.len() && self.entries@[i as int].0 == key,
                None => forall|j: int| 0 <= j < self.entries@.len()
                    ==> (#[trigger] self.entries@[j]).0 != key,
            },
    {
        let mut i: usize = 0;
        while i < self.entries.len()
            invariant
                i <= self.entries@.len(),
                forall|j: int| 0 <= j < i ==> (#[trigger] self.entries@[j]).0 != key,
            decreases self.entries@.len() - i,
        {
            if self.entries[i].0 == key {
                return Some(i);
            }
            i = i + 1;
        }
        None
    }

    /// Look `key` up.
    pub fn get(&self, key: u64) -> (r: Option<&Vec<u8>>)
        requires
            self.wf(),
        ensures
            match r {
                Some(v) => self.spec_contains(key) && v@ == self.spec_get(key),
                None => !self.spec_contains(key),
            },
    {
        let mut i: usize = 0;
        while i < self.entries.len()
            invariant
                self.wf(),
                i <= self.entries@.len(),
                forall|j: int| 0 <= j < i ==> (#[trigger] self.entries@[j]).0 != key,
            decreases self.entries@.len() - i,
        {
            if self.entries[i].0 == key {
                proof {
                    self.lemma_get_at(i as int);
                }
                return Some(&self.entries[i].1);
            }
            i = i + 1;
        }
        None
    }

    /// Insert `value` under `key`, replacing any previous value.
    pub fn insert(&mut self, key: u64, value: Vec<u8>)
        requires
            old(self).wf(),
            value@.len() == EMBEDDING_BYTES,
        ensures
            final(self).wf(),
            final(self).spec_contains(key),
            final(self).spec_get(key) == value@,
            forall|k2: u64| k2 != key
                ==> #[trigger] final(self).spec_contains(k2) == old(self).spec_contains(k2),
            forall|k2: u64| k2 != key && old(self).spec_contains(k2)
                ==> #[trigger] final(self).spec_get(k2) == old(self).spec_get(k2),
    {
        let ghost pre = *self;
        match self.position_of(key) {
            Some(i) => {
                self.entries.remove(i);
                proof {
                    lemma_remove_entry(pre, *self, i as int, key);
                }
            },
            None => {},
        }
        let ghost mid = *self;
        self.entries.push((key, value));
        proof {
            assert(!mid.spec_contains(key));
            let n = mid.entries@.len();
            assert(self.entries@[n as int] == (key, value));
            assert forall|j: int| 0 <= j < n implies (#[trigger] self.entries@[j])
                == mid.entries@[j] by {}
            assert(final_insert_ok(pre, mid, *self, key, value@)) by {
                lemma_insert_post(pre, mid, *self, key, value@);
            }
        }
    }
}

/// All facts `insert` promises, bundled so the proof can be discharged in
/// one step.
spec fn final_insert_ok(pre: EmbeddingMap, mid: EmbeddingMap, post: EmbeddingMap, key: u64, value: Seq<u8>) -> bool {
    &&& post.wf()
    &&& post.spec_contains(key)
    &&& post.spec_get(key) == value
    &&& forall|k2: u64| k2 != key ==> #[trigger] post.spec_contains(k2) == pre.spec_contains(k2)
    &&& forall|k2: u64| k2 != key && pre.spec_contains(k2)
            ==> #[trigger] post.spec_get(k2) == pre.spec_get(k2)
}

/// Removing the one entry that holds `key` leaves a well-formed map that
/// agrees with the original on every other key.
proof fn lemma_remove_entry(pre: EmbeddingMap, mid: EmbeddingMap, i: int, key: u64)
    requires
        pre.wf(),
        0 <= i < pre.entries@.len(),
        pre.entries@[i].0 == key,
        mid.entries@ == pre.entries@.remove(i),
    ensures
        mid.wf(),
        forall|j: int| 0 <= j < mid.entries@.len() ==> (#[trigger] mid.entries@[j]).0 != key,
        forall|k2: u64| k2 != key ==> #[trigger] mid.spec_contains(k2) == pre.spec_contains(k2),
        forall|k2: u64| k2 != key && pre.spec_contains(k2)
            ==> #[trigger] mid.spec_get(k2) == pre.spec_get(k2),
{
    let r = mid.entries@;
    let e = pre.entries@;
    assert(r.len() == e.len() - 1);
    assert forall|j: int| 0 <= j < r.len() implies #[trigger] r[j] == (
        if j < i {
            e[j]
        } else {
            e[j + 1]
        }
    ) by {}
    assert forall|j: int| 0 <= j < r.len() implies (#[trigger] r[j]).0 != key by {
        if j < i {
            assert(e[j].0 != e[i].0);
        } else {
            assert(e[i].0 != e[j + 1].0);
        }
    }
    assert forall|a: int, b: int| 0 <= a < b < r.len() implies (#[trigger] r[a]).0 != (
    #[trigger] r[b]).0 by {
        let a0 = if a < i { a } else { a + 1 };
        let b0 = if b < i { b } else { b + 1 };
        assert(e[a0].0 != e[b0].0);
    }
    assert forall|k2: u64| k2 != key implies #[trigger] mid.spec_contains(k2)
        == pre.spec_contains(k2) by {
        if mid.spec_contains(k2) {
            let j = choose|j: int| 0 <= j < r.len() && (#[trigger] r[j]).0 == k2;
            let j0 = if j < i { j } else { j + 1 };
            assert(e[j0].0 == k2);
            assert(pre.spec_contains(k2));
        }
        if pre.spec_contains(k2) {
            let j0 = choose|j0: int| 0 <= j0 < e.len() && (#[trigger] e[j0]).0 == k2;
            let j = if j0 < i { j0 } else { j0 - 1 };
            assert(r[j].0 == k2);
            assert(mid.spec_contains(k2));
        }
    }
    assert forall|k2: u64| k2 != key && pre.spec_contains(k2) implies #[trigger] mid.spec_get(k2)
        == pre.spec_get(k2) by {
        assert(mid.spec_contains(k2));
        let j = choose|j: int| 0 <= j < r.len() && (#[trigger] r[j]).0 == k2;
        let j0 = if j < i { j } else { j + 1 };
        assert(r[j] == e[j0]);
        mid.lemma_get_at(j);
        pre.lemma_get_at(j0);
    }
}

/// `insert` meets its contract: the state `mid` (after any old entry for
/// `key` is gone) extended with `(key, value)` behaves as the map `pre` with
/// `key` rebound to `value`.
proof fn lemma_insert_post(pre: EmbeddingMap, mid: EmbeddingMap, post: EmbeddingMap, key: u64, value: Seq<u8>)
    requires
        pre.wf(),
        mid.wf(),
        forall|j: int| 0 <= j < mid.entries@.len() ==> (#[trigger] mid.entries@[j]).0 != key,
        forall|k2: u64| k2 != key ==> #[trigger] mid.spec_contains(k2) == pre.spec_contains(k2),
        forall|k2: u64| k2 != key && pre.spec_contains(k2)
            ==> #[trigger] mid.spec_get(k2) == pre.spec_get(k2),
        post.entries@.len() == mid.entries@.len() + 1,
        forall|j: int| 0 <= j < mid.entries@.len()
            ==> #[trigger] post.entries@[j] == mid.entries@[j],
        post.entries@.last().0 == key,
        post.entries@.last().1@ == value,
        value.len() == EMBEDDING_BYTES,
    ensures
        final_insert_ok(pre, mid, post, key, value),
{
    let n = mid.entries@.len();
    assert(post.wf());
    assert(post.entries@[n as int].0 == key);
    assert(post.spec_contains(key));
    post.lemma_get_at(n as int);
    assert forall|k2: u64| k2 != key implies #[trigger] post.spec_contains(k2)
        == mid.spec_contains(k2) by {
        if post.spec_contains(k2) {
            let i = choose|i: int| 0 <= i < post.entries@.len() && (#[trigger] post.entries@[i]).0 == k2;
            assert(i != n);
            assert(mid.entries@[i] == post.entries@[i]);
        }
        if mid.spec_contains(k2) {
            let i = choose|i: int| 0 <= i < mid.entries@.len() && (#[trigger] mid.entries@[i]).0 == k2;
            assert(post.entries@[i] == mid.entries@[i]);
        }
    }
    assert forall|k2: u64| k2 != key && mid.spec_contains(k2) implies #[trigger] post.spec_get(k2)
        == mid.spec_get(k2) by {
        let i = choose|i: int| 0 <= i < mid.entries@.len() && (#[trigger] mid.entries@[i]).0 == k2;
        mid.lemma_get_at(i);
        assert(post.entries@[i] == mid.entries@[i]);
        post.lemma_get_at(i);
    }
}

/// Strict ordering of candidate positions by distance, ties broken by
/// position, so that the ranking of any distance list is unique.
pub open spec fn dist_lt(d: Seq<u64>, a: int, b: int) -> bool {
    d[a] < d[b] || (d[a] == d[b] && a < b)
}

/// `r` lists, in ascending distance order (ties by position), the positions
/// of the `k` nearest candidates of the distance list `d`.
pub open spec fn is_distance_ranking(r: Seq<usize>, d: Seq<u64>, k: int) -> bool {
    &&& r.len() == (if k < d.len() {
        k
    } else {
        d.len() as int
    })
    &&& forall|i: int| 0 <= i < r.len() ==> (#[trigger] r[i]) < d.len()
    &&& forall|i: int, j: int| 0 <= i < j < r.len()
            ==> dist_lt(d, #[trigger] r[i] as int, #[trigger] r[j] as int)
    &&& forall|i: int, u: usize| #![trigger r[i], r.contains(u)]
            0 <= i < r.len() && u < d.len() && !r.contains(u)
            ==> dist_lt(d, r[i] as int, u as int)
}

/// Does `a` precede `b` in the tie-broken distance order?
fn dist_lt_exec(d: &Vec<u64>, a: usize, b: usize) -> (r: bool)
    requires
        a < d@.len(),
        b < d@.len(),
    ensures
        r == dist_lt(d@, a as int, b as int),
{
    d[a] < d[b] || (d[a] == d[b] && a < b)
}

/// Compute the distance ranking: the positions of the `k` nearest
/// candidates, ascending by distance with ties broken by position.
pub fn rank_by_distance(dists: &Vec<u64>, k: usize) -> (r: Vec<usize>)
    ensures
        is_distance_ranking(r@, dists@, k as int),
{
    let n = dists.len();
    let mut out: Vec<usize> = Vec::new();
    let mut i: usize = 0;
    while i < n
        invariant
            n == dists@.len(),
            i <= n,
            out@.len() == i,
            forall|a: int| 0 <= a < out@.len() ==> (#[trigger] out@[a]) < i,
            forall|v: usize| v < i ==> out@.contains(v),
            forall|a: int, b: int| 0 <= a < b < out@.len()
                ==> dist_lt(dists@, #[trigger] out@[a] as int, #[trigger] out@[b] as int),
        decreases n - i,
    {
        let mut p: usize = 0;
        while p < out.len() && dist_lt_exec(dists, out[p], i)
            invariant
                n == dists@.len(),
                i < n,
                p <= out@.len(),
                forall|a: int| 0 <= a < out@.len() ==> (#[trigger] out@[a]) < i,
                forall|q: int| 0 <= q < p ==> dist_lt(dists@, #[trigger] out@[q] as int, i as int),
            decreases out@.len() - p,
        {
            p = p + 1;
        }
        let ghost prev = out@;
        out.insert(p, i);
        proof {
            prev.insert_ensures(p as int, i);
            assert(out@ == prev.insert(p as int, i));
            if p < prev.len() {
                assert(!dist_lt(dists@, prev[p as int] as int, i as int));
                assert(prev[p as int] < i);
                assert(dist_lt(dists@, i as int, prev[p as int] as int));
            }
            assert forall|a: int, b: int| 0 <= a < b < out@.len() implies dist_lt(
                dists@,
                #[trigger] out@[a] as int,
                #[trigger] out@[b] as int,
            ) by {
                if b < p {
                    assert(out@[a] == prev[a] && out@[b] == prev[b]);
                } else if b == p {
                    assert(out@[a] == prev[a] && out@[b] == i);
                } else if a < p {
                    assert(out@[a] == prev[a] && out@[b] == prev[b - 1]);
                    if p <= b - 1 {
                        assert(dist_lt(dists@, i as int, prev[p as int] as int));
                    }
                } else if a == p {
                    assert(out@[a] == i && out@[b] == prev[b - 1]);
                    assert(dist_lt(dists@, i as int, prev[p as int] as int));
                    if p < b - 1 {
                        assert(dist_lt(dists@, prev[p as int] as int, prev[b - 1] as int));
                    }
                } else {
                    assert(out@[a] == prev[a - 1] && out@[b] == prev[b - 1]);
                }
            }
            assert forall|v: usize| v < i + 1 implies out@.contains(v) by {
                if v == i {
                    assert(out@[p as int] == v);
                } else {
                    assert(prev.contains(v));
                    let q = choose|q: int| 0 <= q < prev.len() && prev[q] == v;
                    if q < p {
                        assert(out@[q] == v);
                    } else {
                        assert(out@[q + 1] == v);
                    }
                }
            }
            assert forall|a: int| 0 <= a < out@.len() implies (#[trigger] out@[a]) < i + 1 by {
                if a < p {
                    assert(out@[a] == prev[a]);
                } else if a == p {
                } else {
                    assert(out@[a] == prev[a - 1]);
                }
            }
        }
        i = i + 1;
    }
    let ghost full = out@;
    out.truncate(k);
    proof {
        if k < n {
            assert(out@ == full.subrange(0, k as int));
        } else {
            assert(out@ == full);
        }
        assert forall|a: int, u: usize| #![trigger out@[a], out@.contains(u)]
            0 <= a < out@.len() && u < dists@.len() && !out@.contains(u) implies dist_lt(
            dists@,
            out@[a] as int,
            u as int,
        ) by {
            assert(full.contains(u));
            let q = choose|q: int| 0 <= q < full.len() && full[q] == u;
            if q < out@.len() {
                assert(out@[q] == u);
                assert(out@.contains(u));
            } else {
                assert(out@[a] == full[a]);
                assert(dist_lt(dists@, full[a] as int, full[q] as int));
            }
        }
    }
    out
}

/// One search result of the vector stage: the fields of a stored chunk
/// record together with its distance from the query.
#[derive(Debug)]
pub struct SimilarChunk {
    pub text: Vec<u8>,
    pub file_path: Vec<u8>,
    pub start_line: usize,
    pub end_line: usize,
    pub node_type: Vec<u8>,
    pub distance: u64,
}

/// Is `s` the search result built from record `row` at distance `dist`?
pub open spec fn similar_from_row(s: SimilarChunk, row: ChunkRow, dist: u64) -> bool {
    &&& s.text@ == row.text@
    &&& s.file_path@ == row.file_path@
    &&& s.start_line == row.start_line
    &&& s.end_line == row.end_line
    &&& s.node_type@ == row.node_type@
    &&& s.distance == dist
}

/// Do the results `res` present exactly the rows listed by `rank`, in that
/// order, each with its own distance?
pub open spec fn results_match_ranking(res: Seq<SimilarChunk>, rows: Seq<ChunkRow>, d: Seq<u64>, rank: Seq<usize>) -> bool {
    &&& res.len() == rank.len()
    &&& forall|i: int| 0 <= i < res.len() && (#[trigger] rank[i]) < rows.len() && rank[i] < d.len()
            ==> similar_from_row(res[i], rows[rank[i] as int], d[rank[i] as int])
}

impl Database {
    /// Is `s` built from some stored record, with that record's distance
    /// from the distance list `d`?
    pub open spec fn spec_result_from_some_row(self, s: SimilarChunk, d: Seq<u64>) -> bool {
        exists|x: int| 0 <= x < self.rows().len()
            && similar_from_row(s, #[trigger] self.rows()[x], d[x])
    }

    /// The nearest-neighbour stage of a search: given the distance of the
    /// query to every stored vector (position `i` of `dists` belongs to row
    /// `i`), return at most `limit` results, ascending by distance.
    pub fn find_similar_chunks(&self, dists: &Vec<u64>, limit: usize) -> (res: Vec<SimilarChunk>)
        requires
            self.wf(),
            dists@.len() == self.rows().len(),
        ensures
            exists|rank: Seq<usize>| is_distance_ranking(rank, dists@, limit as int)
                && #[trigger] results_match_ranking(res@, self.rows(), dists@, rank),
            res@.len() == (if (limit as int) < self.rows().len() {
                limit as int
            } else {
                self.rows().len() as int
            }),
            forall|i: int, j: int| 0 <= i < j < res@.len()
                ==> (#[trigger] res@[i]).distance <= (#[trigger] res@[j]).distance,
            forall|i: int| 0 <= i < res@.len()
                ==> self.spec_result_from_some_row(#[trigger] res@[i], dists@),
    {
        let rank = rank_by_distance(dists, limit);
        let mut res: Vec<SimilarChunk> = Vec::new();
        let mut j: usize = 0;
        while j < rank.len()
            invariant
                self.wf(),
                dists@.len() == self.rows().len(),
                is_distance_ranking(rank@, dists@, limit as int),
                j <= rank@.len(),
                res@.len() == j,
                forall|i: int| 0 <= i < j
                    ==> similar_from_row(
                        #[trigger] res@[i],
                        self.rows()[rank@[i] as int],
                        dists@[rank@[i] as int],
                    ),
            decreases rank@.len() - j,
        {
            let idx = rank[j];
            let row = &self.chunks[idx];
            res.push(SimilarChunk {
                text: vstd::slice::slice_to_vec(row.text.as_slice()),
                file_path: vstd::slice::slice_to_vec(row.file_path.as_slice()),
                start_line: row.start_line,
                end_line: row.end_line,
                node_type: vstd::slice::slice_to_vec(row.node_type.as_slice()),
                distance: dists[idx],
            });
            j = j + 1;
        }
        proof {
            assert(is_distance_ranking(rank@, dists@, limit as int)
                && results_match_ranking(res@, self.rows(), dists@, rank@));
            assert forall|a: int, b: int| 0 <= a < b < res@.len() implies (#[trigger] res@[a])
                .distance <= (#[trigger] res@[b]).distance by {
                assert(dist_lt(dists@, rank@[a] as int, rank@[b] as int));
            }
            assert forall|i: int| 0 <= i < res@.len() implies self.spec_result_from_some_row(
                #[trigger] res@[i],
                dists@,
            ) by {
                let x = rank@[i] as int;
                assert(rank@[i] < dists@.len());
                assert(0 <= x < self.rows().len());
                assert(similar_from_row(res@[i], self.rows()[x], dists@[x]));
            }
        }
        res
    }
}

/// Chunk records and vector records correspond one to one: the tables have
/// equal length, paired rows share their row id, and row ids are unique on
/// both sides, so every chunk record has exactly one vector record with its
/// row id, and conversely.
pub proof fn lemma_row_vector_correspondence(db: Database)
    requires
        db.wf(),
    ensures
        db.rows().len() == db.vecs().len(),
        forall|i: int| 0 <= i < db.rows().len()
            ==> (#[trigger] db.rows()[i]).row_id == db.vecs()[i].row_id,
        forall|i: int, j: int| 0 <= i < j < db.rows().len()
            ==> (#[trigger] db.rows()[i]).row_id != (#[trigger] db.rows()[j]).row_id,
        forall|i: int, j: int| 0 <= i < j < db.vecs().len()
            ==> (#[trigger] db.vecs()[i]).row_id != (#[trigger] db.vecs()[j]).row_id,
{
    assert forall|i: int, j: int| 0 <= i < j < db.vecs().len() implies (#[trigger] db.vecs()[i])
        .row_id != (#[trigger] db.vecs()[j]).row_id by {
        assert(db.rows()[i].row_id < db.rows()[j].row_id);
    }
}

/// Once every record under `path` is deleted, no search result built from a
/// stored record lies under `path`.
pub proof fn lemma_deleted_file_absent_from_results(db: Database, path: Seq<u8>, s: SimilarChunk, d: Seq<u64>)
    requires
        forall|i: int| 0 <= i < db.rows().len() ==> (#[trigger] db.rows()[i]).file_path@ != path,
        db.spec_result_from_some_row(s, d),
    ensures
        s.file_path@ != path,
{
    let x = choose|x: int| 0 <= x < db.rows().len()
        && similar_from_row(s, #[trigger] db.rows()[x], d[x]);
    assert(db.rows()[x].file_path@ != path);
}

/// Byte-for-byte equality of two byte strings.
pub fn compare_bytes(a: &[u8], b: &[u8]) -> (r: bool)
    ensures
        r == (a@ == b@),
{
    if a.len() != b.len() {
        proof {
            assert(a@.len() != b@.len());
        }
        return false;
    }
    let mut i: usize = 0;
    while i < a.len()
        invariant
            a@.len() == b@.len(),
            i <= a@.len(),
            forall|j: int| 0 <= j < i ==> a@[j] == b@[j],
        decreases a@.len() - i,
    {
        if a[i] != b[i] {
            return false;
        }
        i = i + 1;
    }
    proof {
        assert(a@ =~= b@);
    }
    true
}

} // verus!
