//! The chunk store: uniqueness, pairing, similarity search, deletion.

use ragrep::db::{Database, EMBEDDING_BYTES};

fn emb(seed: u8) -> Vec<u8> {
    vec![seed; EMBEDDING_BYTES]
}

fn save(db: &mut Database, path: &[u8], idx: i32, start: usize, end: usize, text: &[u8], hash: u64, e: Vec<u8>) {
    db.save_chunk(
        path.to_vec(),
        idx,
        b"function".to_vec(),
        None,
        start,
        end,
        text.to_vec(),
        hash,
        e,
    );
}

#[test]
fn duplicate_insert_is_ignored() {
    let mut db = Database::new();
    save(&mut db, b"/r/a.rs", 0, 1, 3, b"fn a() {}", 42, emb(1));
    save(&mut db, b"/r/a.rs", 1, 1, 3, b"fn a() {}", 42, emb(2));
    assert_eq!(db.chunks.len(), 1);
    assert_eq!(db.vectors.len(), 1);
    // a different key under the same path is a new record
    save(&mut db, b"/r/a.rs", 1, 5, 7, b"fn b() {}", 43, emb(3));
    assert_eq!(db.chunks.len(), 2);
    assert_eq!(db.vectors.len(), 2);
}

#[test]
fn chunk_and_vector_tables_pair_up() {
    let mut db = Database::new();
    save(&mut db, b"/r/a.rs", 0, 1, 3, b"fn a() {}", 1, emb(1));
    save(&mut db, b"/r/b.rs", 0, 1, 4, b"fn b() {}", 2, emb(2));
    save(&mut db, b"/r/c.rs", 0, 2, 9, b"fn c() {}", 3, emb(3));
    assert_eq!(db.chunks.len(), db.vectors.len());
    for i in 0..db.chunks.len() {
        assert_eq!(db.chunks[i].row_id, db.vectors[i].row_id);
        for j in 0..i {
            assert_ne!(db.chunks[i].row_id, db.chunks[j].row_id);
        }
    }
}

#[test]
fn find_similar_returns_at_most_k_ascending() {
    let mut db = Database::new();
    save(&mut db, b"/r/a.rs", 0, 1, 3, b"fn a() {}", 1, emb(1));
    save(&mut db, b"/r/b.rs", 0, 1, 4, b"fn b() {}", 2, emb(2));
    save(&mut db, b"/r/c.rs", 0, 2, 9, b"fn c() {}", 3, emb(3));
    let dists: Vec<u64> = vec![30, 10, 20];
    let res = db.find_similar_chunks(&dists, 2);
    assert_eq!(res.len(), 2);
    assert_eq!(res[0].distance, 10);
    assert_eq!(res[1].distance, 20);
    assert_eq!(res[0].file_path, b"/r/b.rs".to_vec());
    assert_eq!(res[1].file_path, b"/r/c.rs".to_vec());
    // more asked for than stored: everything comes back, still ascending
    let all = db.find_similar_chunks(&dists, 10);
    assert_eq!(all.len(), 3);
    assert!(all[0].distance <= all[1].distance && all[1].distance <= all[2].distance);
}

#[test]
fn find_similar_with_float_distances() {
    // distances computed from packed float vectors, the way the daemon
    // wires the search: L2 distance, mapped to an order-preserving key
    let mut db = Database::new();
    let vecs: [f32; 3] = [0.1, 0.5, 0.9];
    for (i, v) in vecs.iter().enumerate() {
        let mut e = Vec::new();
        for _ in 0..(EMBEDDING_BYTES / 4) {
            e.extend_from_slice(&v.to_le_bytes());
        }
        save(
            &mut db,
            format!("/r/f{}.rs", i).as_bytes(),
            0,
            1,
            2,
            b"fn x() {}",
            i as u64,
            e,
        );
    }
    let query: f32 = 0.45;
    let mut dists: Vec<u64> = Vec::new();
    for row in &db.vectors {
        let mut acc: f32 = 0.0;
        for c in row.embedding.chunks_exact(4) {
            let x = f32::from_le_bytes([c[0], c[1], c[2], c[3]]);
            acc += (x - query) * (x - query);
        }
        dists.push(acc.sqrt().to_bits() as u64);
    }
    let res = db.find_similar_chunks(&dists, 3);
    assert_eq!(res[0].file_path, b"/r/f1.rs".to_vec());
}

#[test]
fn delete_file_removes_all_rows_for_path() {
    let mut db = Database::new();
    save(&mut db, b"/r/a.rs", 0, 1, 3, b"fn a() {}", 1, emb(1));
    save(&mut db, b"/r/a.rs", 1, 5, 9, b"fn b() {}", 2, emb(2));
    save(&mut db, b"/r/c.rs", 0, 2, 9, b"fn c() {}", 3, emb(3));
    db.delete_file(b"/r/a.rs");
    assert_eq!(db.chunks.len(), 1);
    assert_eq!(db.vectors.len(), 1);
    assert_eq!(db.chunks[0].file_path, b"/r/c.rs".to_vec());
    assert_eq!(db.chunks[0].row_id, db.vectors[0].row_id);
}

#[test]
fn deleted_path_absent_from_results() {
    let mut db = Database::new();
    save(&mut db, b"/r/gone.rs", 0, 1, 3, b"fn a() {}", 1, emb(1));
    save(&mut db, b"/r/kept.rs", 0, 1, 4, b"fn b() {}", 2, emb(2));
    db.delete_file(b"/r/gone.rs");
    let dists: Vec<u64> = vec![5; db.chunks.len()];
    let res = db.find_similar_chunks(&dists, 10);
    assert!(res.iter().all(|r| r.file_path != b"/r/gone.rs".to_vec()));
    assert_eq!(res.len(), 1);
}

#[test]
fn delete_files_removes_each_path() {
    let mut db = Database::new();
    save(&mut db, b"/r/a.rs", 0, 1, 3, b"fn a() {}", 1, emb(1));
    save(&mut db, b"/r/b.rs", 0, 1, 4, b"fn b() {}", 2, emb(2));
    save(&mut db, b"/r/c.rs", 0, 2, 9, b"fn c() {}", 3, emb(3));
    db.delete_files(&vec![b"/r/a.rs".to_vec(), b"/r/c.rs".to_vec()]);
    assert_eq!(db.chunks.len(), 1);
    assert_eq!(db.chunks[0].file_path, b"/r/b.rs".to_vec());
}

#[test]
fn get_chunks_with_embeddings_maps_hashes() {
    let mut db = Database::new();
    save(&mut db, b"/r/a.rs", 0, 1, 3, b"fn a() {}", 11, emb(1));
    save(&mut db, b"/r/a.rs", 1, 5, 9, b"fn b() {}", 22, emb(2));
    save(&mut db, b"/r/c.rs", 0, 2, 9, b"fn c() {}", 33, emb(3));
    let m = db.get_chunks_with_embeddings(b"/r/a.rs");
    assert_eq!(m.len(), 2);
    assert_eq!(m.get(11).unwrap(), &emb(1));
    assert_eq!(m.get(22).unwrap(), &emb(2));
    assert!(m.get(33).is_none());
}
