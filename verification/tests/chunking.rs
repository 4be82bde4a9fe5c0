//! The chunker, against real grammars.

use ragrep::chunker::{language_for, extension_of, ChunkError, Chunker, Lang};
use ragrep::hashing::chunk_hash;

#[test]
fn recognized_extensions_name_languages() {
    assert_eq!(language_for(b"rs"), Some(Lang::Rust));
    assert_eq!(language_for(b"py"), Some(Lang::Python));
    assert_eq!(language_for(b"js"), Some(Lang::JavaScript));
    assert_eq!(language_for(b"ts"), Some(Lang::TypeScript));
    assert_eq!(language_for(b"txt"), None);
    assert_eq!(language_for(b""), None);
}

#[test]
fn extensions_come_from_the_final_component() {
    assert_eq!(extension_of(b"/repo/src/lib.rs"), Some(b"rs".to_vec()));
    assert_eq!(extension_of(b"lib.rs"), Some(b"rs".to_vec()));
    assert_eq!(extension_of(b"archive.tar.gz"), Some(b"gz".to_vec()));
    assert_eq!(extension_of(b"/repo/.gitignore"), None);
    assert_eq!(extension_of(b"/repo/Makefile"), None);
    assert_eq!(extension_of(b"/repo.rs/Makefile"), None);
}

#[test]
fn unsupported_extension_is_refused() {
    let mut chunker = Chunker::new().unwrap();
    let r = chunker.chunk_file(b"/r/notes.txt", b"fn a() {}");
    assert_eq!(r.unwrap_err(), ChunkError::UnsupportedLanguage);
}

#[test]
fn empty_file_gives_zero_chunks() {
    let mut chunker = Chunker::new().unwrap();
    let chunks = chunker.chunk_file(b"/r/lib.rs", b"").unwrap();
    assert_eq!(chunks.len(), 0);
}

#[test]
fn comment_only_file_gives_zero_chunks() {
    let mut chunker = Chunker::new().unwrap();
    let content = b"// a comment\n// another comment\n";
    let chunks = chunker.chunk_file(b"/r/lib.rs", content).unwrap();
    assert_eq!(chunks.len(), 0);
}

#[test]
fn duplicate_functions_dedup_to_one_chunk() {
    let mut chunker = Chunker::new().unwrap();
    let content = b"fn same() { let x = 1; }\n\nfn same() { let x = 1; }\n";
    let chunks = chunker.chunk_file(b"/r/lib.rs", content).unwrap();
    assert_eq!(chunks.len(), 1);
}

#[test]
fn chunks_are_ordered_with_distinct_hashes() {
    let mut chunker = Chunker::new().unwrap();
    let content = b"fn alpha() { 1 }\n\nfn beta() { 2 }\n\nfn gamma() { 3 }\n";
    let chunks = chunker.chunk_file(b"/r/lib.rs", content).unwrap();
    assert_eq!(chunks.len(), 3);
    for i in 0..chunks.len() {
        for j in (i + 1)..chunks.len() {
            assert!(chunks[i].start_byte < chunks[j].start_byte);
            assert_ne!(chunks[i].hash(), chunks[j].hash());
        }
    }
    // the text of a chunk is the verbatim byte range it names
    for c in &chunks {
        assert_eq!(&content[c.start_byte..c.end_byte], c.content.as_slice());
        assert_eq!(c.hash(), chunk_hash(&c.content, &c.kind));
    }
}

#[test]
fn line_numbers_are_one_based_inclusive() {
    let mut chunker = Chunker::new().unwrap();
    let content = b"fn first() {\n    1\n}\n\nfn second() {\n    2\n}\n";
    let chunks = chunker.chunk_file(b"/r/lib.rs", content).unwrap();
    assert_eq!(chunks.len(), 2);
    assert_eq!(chunks[0].start_line, 1);
    assert_eq!(chunks[0].end_line, 3);
    assert_eq!(chunks[1].start_line, 5);
    assert_eq!(chunks[1].end_line, 7);
}

#[test]
fn python_and_javascript_functions_chunk() {
    let mut chunker = Chunker::new().unwrap();
    let py = chunker.chunk_file(b"/r/t.py", b"def f():\n    return 1\n").unwrap();
    assert_eq!(py.len(), 1);
    assert_eq!(py[0].kind, b"function".to_vec());
    let js = chunker
        .chunk_file(b"/r/t.js", b"function f() { return 1; }\n")
        .unwrap();
    assert_eq!(js.len(), 1);
}

#[test]
fn leading_comments_attach_to_chunks() {
    let mut chunker = Chunker::new().unwrap();
    let content = b"// what alpha does\nfn alpha() { 1 }\n";
    let chunks = chunker.chunk_file(b"/r/lib.rs", content).unwrap();
    assert_eq!(chunks.len(), 1);
    assert_eq!(chunks[0].leading_comments, b"// what alpha does\n".to_vec());
    assert_eq!(chunks[0].content, b"fn alpha() { 1 }".to_vec());
}
