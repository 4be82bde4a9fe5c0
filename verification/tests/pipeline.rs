//! Index-and-query, end to end: chunker, store, ranking and shaping,
//! wired the way the daemon wires them, with a stand-in embedding.

use ragrep::chunker::Chunker;
use ragrep::db::{Database, EMBEDDING_BYTES};
use ragrep::server::{shape_response, sort_reranked};

/// A deterministic stand-in embedding: a bag-of-bytes histogram spread
/// over the embedding dimensions, packed little-endian.
fn embed(text: &[u8]) -> Vec<u8> {
    let dim = EMBEDDING_BYTES / 4;
    let mut v = vec![0.0f32; dim];
    for (i, &b) in text.iter().enumerate() {
        v[(b as usize + i) % dim] += 1.0;
    }
    let norm: f32 = v.iter().map(|x| x * x).sum::<f32>().sqrt().max(1.0);
    let mut out = Vec::with_capacity(EMBEDDING_BYTES);
    for x in v {
        out.extend_from_slice(&(x / norm).to_le_bytes());
    }
    out
}

fn l2_key(a: &[u8], b: &[u8]) -> u64 {
    let mut acc = 0.0f32;
    for (ca, cb) in a.chunks_exact(4).zip(b.chunks_exact(4)) {
        let xa = f32::from_le_bytes([ca[0], ca[1], ca[2], ca[3]]);
        let xb = f32::from_le_bytes([cb[0], cb[1], cb[2], cb[3]]);
        acc += (xa - xb) * (xa - xb);
    }
    acc.sqrt().to_bits() as u64
}

#[test]
fn index_and_query_finds_the_function() {
    // a repository whose only source file holds a single function
    let content = b"fn parse_header(input: &[u8]) -> Result<Header, Error> { todo(input) }\n";
    let mut chunker = Chunker::new().unwrap();
    let chunks = chunker.chunk_file(b"/repo/src/lib.rs", content).unwrap();
    assert_eq!(chunks.len(), 1);

    let mut db = Database::new();
    for (idx, c) in chunks.iter().enumerate() {
        db.save_chunk(
            b"/repo/src/lib.rs".to_vec(),
            idx as i32,
            c.kind.clone(),
            None,
            c.start_line,
            c.end_line,
            c.content.clone(),
            c.hash(),
            embed(&c.content),
        );
    }

    // the query pipeline: embed the query, rank by distance, rerank, shape
    let query = embed(b"parse http header");
    let dists: Vec<u64> = db.vectors.iter().map(|v| l2_key(&v.embedding, &query)).collect();
    let candidates = db.find_similar_chunks(&dists, 10);
    assert!(!candidates.is_empty());

    // a stand-in reranker score: closer candidates score higher
    let reranked: Vec<(usize, u32)> = candidates
        .iter()
        .enumerate()
        .map(|(i, c)| (i, u32::MAX - c.distance as u32))
        .collect();
    let ordered = sort_reranked(&reranked);
    let resp = shape_response(&candidates, &ordered, false, 5);

    assert!(resp.stats.num_results >= 1);
    let top = &resp.results[0];
    assert!(top.file_path.ends_with(b"lib.rs"));
    assert_eq!(top.start_line, 1);
    assert_eq!(top.text, chunks[0].content);
}

#[test]
fn empty_store_gives_an_empty_response() {
    let db = Database::new();
    let dists: Vec<u64> = Vec::new();
    let candidates = db.find_similar_chunks(&dists, 10);
    assert!(candidates.is_empty());
    let resp = ragrep::server::empty_response(3);
    assert_eq!(resp.results.len(), 0);
    assert_eq!(resp.stats.num_candidates, 0);
    assert_eq!(resp.stats.num_results, 0);
    assert_eq!(resp.stats.total_time_ms, 3);
}
