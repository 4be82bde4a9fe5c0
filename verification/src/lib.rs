//! ragrep: a verified core for semantic code search.
//!
//! The library turns source files into stable, deduplicated, syntax-aware
//! chunks, keeps them in a chunk store paired with packed embeddings,
//! reindexes changed files with embedding reuse, ranks stored chunks by
//! their distance to a query, and speaks a newline-delimited message
//! protocol.  The executable around it supplies what a verifier cannot
//! see: the filesystem, the sockets, and the embedding models.

pub mod chunker;
pub mod cleaner;
pub mod client;
pub mod config;
pub mod db;
pub mod embedder;
pub mod git_watcher;
pub mod hashing;
pub mod indexer;
pub mod parsing;
pub mod protocol;
pub mod server;
