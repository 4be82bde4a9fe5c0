[package]
name = "ragrep"
version = "0.1.0"
edition = "2021"
publish = false

[dependencies]
anyhow = "*"
clap = { version = "*", features = ["derive"] }
dirs = "*"
env_logger = "*"
fastembed = { version = "*", default-features = false }
git2 = { version = "*", default-features = false }
ignore = "*"
indicatif = "*"
indicatif-log-bridge = "*"
log = "*"
notify = "*"
promkit = "*"
rusqlite = { version = "*", features = ["bundled"] }
serde = { version = "*", features = ["derive"] }
serde_json = "*"
sqlite-vec = "*"
streaming-iterator = "*"
termcolor = "*"
tokio = { version = "*", features = ["full"] }
toml = "*"
tree-sitter = "*"
tree-sitter-javascript = "*"
tree-sitter-python = "*"
tree-sitter-rust = "*"
tree-sitter-typescript = "*"
zerocopy = "*"
