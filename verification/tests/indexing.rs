//! The indexer: full indexing, idempotence, and reuse on reindex.

use ragrep::chunker::{Chunker, CodeChunk};
use ragrep::db::{Database, EmbeddingMap, EMBEDDING_BYTES};
use ragrep::indexer::{
    apply_reindex, chunks_needing_embedding, index_file, plan_reindex, FileInfo, Indexer,
};

fn emb(seed: u8) -> Vec<u8> {
    vec![seed; EMBEDDING_BYTES]
}

fn chunk_it(path: &[u8], content: &[u8]) -> Vec<CodeChunk> {
    let mut chunker = Chunker::new().unwrap();
    chunker.chunk_file(path, content).unwrap()
}

fn embeddings_for(chunks: &[CodeChunk]) -> Vec<Vec<u8>> {
    (0..chunks.len()).map(|i| emb(i as u8 + 1)).collect()
}

fn tuples_for(db: &Database, path: &[u8]) -> Vec<(usize, usize, u64, Vec<u8>)> {
    let mut out = Vec::new();
    for i in 0..db.chunks.len() {
        if db.chunks[i].file_path == path.to_vec() {
            out.push((
                db.chunks[i].start_line,
                db.chunks[i].end_line,
                db.chunks[i].hash,
                db.vectors[i].embedding.clone(),
            ));
        }
    }
    out.sort();
    out
}

#[test]
fn full_index_stores_one_record_per_chunk() {
    let content = b"fn alpha() { 1 }\n\nfn beta() { 2 }\n";
    let chunks = chunk_it(b"/r/lib.rs", content);
    assert_eq!(chunks.len(), 2);
    let embs = embeddings_for(&chunks);
    let mut db = Database::new();
    index_file(&mut db, b"/r/lib.rs", &chunks, &embs);
    assert_eq!(db.chunks.len(), 2);
    // exactly one record matches each chunk's uniqueness key
    for c in &chunks {
        let matches: Vec<_> = db
            .chunks
            .iter()
            .filter(|r| {
                r.file_path == b"/r/lib.rs".to_vec()
                    && r.start_line == c.start_line
                    && r.end_line == c.end_line
                    && r.hash == c.hash()
            })
            .collect();
        assert_eq!(matches.len(), 1);
    }
}

#[test]
fn reindexing_unchanged_tree_changes_nothing() {
    let content = b"fn alpha() { 1 }\n\nfn beta() { 2 }\n";
    let chunks = chunk_it(b"/r/lib.rs", content);
    let embs = embeddings_for(&chunks);
    let mut db = Database::new();
    index_file(&mut db, b"/r/lib.rs", &chunks, &embs);
    let before = tuples_for(&db, b"/r/lib.rs");
    let next_id = db.next_row_id;
    // the full indexer runs again over the unchanged tree
    index_file(&mut db, b"/r/lib.rs", &chunks, &embs);
    assert_eq!(db.chunks.len(), 2);
    assert_eq!(db.next_row_id, next_id);
    assert_eq!(tuples_for(&db, b"/r/lib.rs"), before);
}

#[test]
fn delete_then_reindex_restores_the_same_tuples() {
    let content = b"fn alpha() { 1 }\n\nfn beta() { 2 }\n";
    let chunks = chunk_it(b"/r/lib.rs", content);
    let embs = embeddings_for(&chunks);
    let mut db = Database::new();
    index_file(&mut db, b"/r/lib.rs", &chunks, &embs);
    let before = tuples_for(&db, b"/r/lib.rs");

    db.delete_file(b"/r/lib.rs");
    // reindex over unchanged content: the cache is empty, so every chunk
    // is re-embedded; embeddings agree because they are a function of the
    // unchanged text
    let reuse = plan_reindex(&mut db, b"/r/lib.rs");
    assert_eq!(reuse.len(), 0);
    let need = chunks_needing_embedding(&chunks, &reuse);
    assert_eq!(need.len(), chunks.len());
    let mut fresh = EmbeddingMap::new();
    for &i in need.iter() {
        fresh.insert(i as u64, embs[i].clone());
    }
    let counts = apply_reindex(&mut db, b"/r/lib.rs", &chunks, &reuse, &fresh);
    assert_eq!(counts.chunks, chunks.len());
    assert_eq!(counts.reused, 0);
    assert_eq!(counts.fresh, chunks.len());
    assert_eq!(tuples_for(&db, b"/r/lib.rs"), before);
}

#[test]
fn one_added_function_reuses_all_old_embeddings() {
    let content = b"fn alpha() { 1 }\n\nfn beta() { 2 }\n";
    let chunks = chunk_it(b"/r/lib.rs", content);
    let embs = embeddings_for(&chunks);
    let mut db = Database::new();
    index_file(&mut db, b"/r/lib.rs", &chunks, &embs);
    let n_before = db.chunks.len();

    let content2 = b"fn alpha() { 1 }\n\nfn beta() { 2 }\n\nfn gamma() { 3 }\n";
    let chunks2 = chunk_it(b"/r/lib.rs", content2);
    assert_eq!(chunks2.len(), 3);
    let reuse = plan_reindex(&mut db, b"/r/lib.rs");
    assert_eq!(reuse.len(), 2);
    let need = chunks_needing_embedding(&chunks2, &reuse);
    assert_eq!(need.len(), 1);
    let mut fresh = EmbeddingMap::new();
    for &i in need.iter() {
        fresh.insert(i as u64, emb(99));
    }
    let counts = apply_reindex(&mut db, b"/r/lib.rs", &chunks2, &reuse, &fresh);
    assert_eq!(counts.reused, 2);
    assert_eq!(counts.fresh, 1);
    assert_eq!(db.chunks.len(), n_before + 1);
    // prior embeddings survive for the unchanged chunks
    let tuples = tuples_for(&db, b"/r/lib.rs");
    for c in &chunks {
        let h = c.hash();
        let kept: Vec<_> = tuples.iter().filter(|t| t.2 == h).collect();
        assert_eq!(kept.len(), 1);
        assert!(kept[0].3 == embs[0] || kept[0].3 == embs[1]);
    }
}

#[test]
fn whitespace_touch_reuses_every_embedding() {
    // ten files, ten chunks each
    let mut db = Database::new();
    let mut contents: Vec<Vec<u8>> = Vec::new();
    let mut paths: Vec<Vec<u8>> = Vec::new();
    for f in 0..10 {
        let mut content = Vec::new();
        for c in 0..10 {
            content.extend_from_slice(format!("fn f{}_{}() {{ {} }}\n\n", f, c, c).as_bytes());
        }
        let path = format!("/r/f{}.rs", f).into_bytes();
        let chunks = chunk_it(&path, &content);
        assert_eq!(chunks.len(), 10);
        let embs = embeddings_for(&chunks);
        index_file(&mut db, &path, &chunks, &embs);
        contents.push(content);
        paths.push(path);
    }
    assert_eq!(db.chunks.len(), 100);

    // touch one file: whitespace only, no function body changes
    let mut touched = b"\n\n".to_vec();
    touched.extend_from_slice(&contents[3]);
    let chunks = chunk_it(&paths[3], &touched);
    assert_eq!(chunks.len(), 10);
    let reuse = plan_reindex(&mut db, &paths[3]);
    let need = chunks_needing_embedding(&chunks, &reuse);
    assert_eq!(need.len(), 0);
    let fresh = EmbeddingMap::new();
    let counts = apply_reindex(&mut db, &paths[3], &chunks, &reuse, &fresh);
    assert_eq!(counts.reused, 10);
    assert_eq!(counts.fresh, 0);
    assert_eq!(db.chunks.len(), 100);
}

#[test]
fn removed_file_leaves_no_results() {
    let mut db = Database::new();
    let chunks = chunk_it(b"/r/gone.rs", b"fn alpha() { 1 }\n");
    index_file(&mut db, b"/r/gone.rs", &chunks, &embeddings_for(&chunks));
    let chunks2 = chunk_it(b"/r/kept.rs", b"fn beta() { 2 }\n");
    index_file(&mut db, b"/r/kept.rs", &chunks2, &embeddings_for(&chunks2));

    // the file disappears; its reindex still deletes the stale rows and
    // produces no new chunks
    let _reuse = plan_reindex(&mut db, b"/r/gone.rs");
    let dists: Vec<u64> = vec![7; db.chunks.len()];
    let res = db.find_similar_chunks(&dists, 10);
    assert!(!res.is_empty());
    assert!(res.iter().all(|r| r.file_path != b"/r/gone.rs".to_vec()));
}

#[test]
fn indexer_filters_by_extension() {
    let indexer = Indexer::new();
    assert!(indexer.is_valid_extension(b"/r/a.rs"));
    assert!(indexer.is_valid_extension(b"/r/a.py"));
    assert!(!indexer.is_valid_extension(b"/r/a.c"));
    assert!(!indexer.is_valid_extension(b"/r/Makefile"));
    let files = vec![
        FileInfo { path: b"/r/a.rs".to_vec(), size: 10, modified_ms: 1 },
        FileInfo { path: b"/r/b.txt".to_vec(), size: 20, modified_ms: 2 },
        FileInfo { path: b"/r/c.ts".to_vec(), size: 30, modified_ms: 3 },
    ];
    let kept = indexer.index_files(files);
    assert_eq!(kept.len(), 2);
    assert_eq!(kept[0].path, b"/r/a.rs".to_vec());
    assert_eq!(kept[1].path, b"/r/c.ts".to_vec());
}
