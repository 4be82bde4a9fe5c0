//! The supporting pieces: hashing, cleaning, configuration, client
//! discovery, and embedder preprocessing.

use ragrep::cleaner::Cleaner;
use ragrep::client::{parent_dir, socket_path_under, RagrepClient};
use ragrep::config::{Config, ConfigManager, GitWatchConfig, RerankerConfig};
use ragrep::db::EMBEDDING_BYTES;
use ragrep::embedder::{collapse_whitespace, Embedder};
use ragrep::hashing::{chunk_hash, fnv1a_hash};

#[test]
fn fnv1a_matches_the_reference_vectors() {
    assert_eq!(fnv1a_hash(b""), 0xcbf2_9ce4_8422_2325);
    assert_eq!(fnv1a_hash(b"a"), 0xaf63_dc4c_8601_ec8c);
    assert_eq!(fnv1a_hash(b"foobar"), 0x85944171f73967e8);
}

#[test]
fn chunk_hash_depends_on_text_and_kind() {
    let h1 = chunk_hash(b"fn a() {}", b"function");
    let h2 = chunk_hash(b"fn a() {}", b"impl");
    let h3 = chunk_hash(b"fn b() {}", b"function");
    assert_ne!(h1, h2);
    assert_ne!(h1, h3);
    assert_eq!(h1, chunk_hash(b"fn a() {}", b"function"));
}

#[test]
fn cleaner_trims_filters_and_groups() {
    let c = Cleaner::new(2);
    let groups = c.clean_and_chunk(b"  one  \n\n   \ntwo\nthree\n  four\n");
    assert_eq!(
        groups,
        vec![b"one\ntwo".to_vec(), b"three\nfour".to_vec()]
    );
    let single = Cleaner::new(10).clean_and_chunk(b"a\nb");
    assert_eq!(single, vec![b"a\nb".to_vec()]);
    let empty = Cleaner::new(3).clean_and_chunk(b"   \n\t\n");
    assert_eq!(empty.len(), 0);
}

#[test]
fn local_config_overrides_global() {
    let global = Config {
        model_cache_dir: Some(b"/global/models".to_vec()),
        reranker: Some(RerankerConfig { use_external_service: false, service_url: None }),
        git_watch: GitWatchConfig { enabled: true, debounce_ms: 500 },
    };
    let local = Config {
        model_cache_dir: Some(b"/local/models".to_vec()),
        reranker: None,
        git_watch: GitWatchConfig { enabled: false, debounce_ms: 900 },
    };
    let m = ConfigManager::new(global, Some(local), b"/g/config.toml".to_vec(), None);
    assert_eq!(m.config().model_cache_dir, Some(b"/local/models".to_vec()));
    assert_eq!(m.config().git_watch.enabled, false);
    assert_eq!(m.config().git_watch.debounce_ms, 900);
    // the reranker section falls back to the global one
    let r = m.get_reranker_config().unwrap();
    assert_eq!(r.use_external_service, false);
    assert_eq!(
        m.get_model_cache_dir(b"/default".to_vec()),
        b"/local/models".to_vec()
    );
}

#[test]
fn global_config_applies_without_a_local_one() {
    let global = Config {
        model_cache_dir: None,
        reranker: None,
        git_watch: GitWatchConfig::default(),
    };
    let m = ConfigManager::new(global, None, b"/g/config.toml".to_vec(), None);
    assert_eq!(m.config().git_watch.enabled, true);
    assert_eq!(m.config().git_watch.debounce_ms, 500);
    assert!(m.get_reranker_config().is_none());
    assert_eq!(m.get_model_cache_dir(b"/default".to_vec()), b"/default".to_vec());
}

#[test]
fn client_walks_upward_for_the_socket() {
    assert_eq!(
        socket_path_under(b"/home/u/proj"),
        b"/home/u/proj/.ragrep/ragrep.sock".to_vec()
    );
    assert_eq!(parent_dir(b"/home/u/proj"), Some(b"/home/u".to_vec()));
    assert_eq!(parent_dir(b"/home"), Some(b"".to_vec()));
    assert_eq!(parent_dir(b"relative"), None);
    let c = RagrepClient::new(b"/r/.ragrep/ragrep.sock".to_vec());
    assert_eq!(c.socket_path(), &b"/r/.ragrep/ragrep.sock".to_vec());
}

#[test]
fn whitespace_collapses_to_single_spaces() {
    assert_eq!(collapse_whitespace(b"  fn   a( ) {\n\treturn 1; }  "), b"fn a( ) { return 1; }".to_vec());
    assert_eq!(collapse_whitespace(b""), b"".to_vec());
    assert_eq!(collapse_whitespace(b"   \n\t "), b"".to_vec());
    assert_eq!(collapse_whitespace(b"one"), b"one".to_vec());
}

#[test]
fn embedder_cache_finds_recorded_embeddings() {
    let mut e = Embedder::new();
    let matches = Vec::new();
    let names = Vec::new();
    let (processed, h) = e.prepare_text(b"fn  a()   {}", &matches, &names);
    assert_eq!(processed, b"fn a() {}".to_vec());
    assert!(e.lookup(h).is_none());
    let embedding = vec![7u8; EMBEDDING_BYTES];
    e.record(h, embedding.clone());
    assert_eq!(e.lookup(h).unwrap(), &embedding);
    // the same text prepares to the same key
    let (_, h2) = e.prepare_text(b"fn  a()   {}", &matches, &names);
    assert_eq!(h, h2);
}
