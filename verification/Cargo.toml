[package]
name = "astdiff"
version = "0.1.0"
edition = "2021"
publish = false

[dependencies]
tree-sitter = "0.24"
tree-sitter-javascript = "0.23"
strsim = "0.11"
sha2 = "0.10"
anyhow = "1"
clap = { version = "4", features = ["derive"] }
serde = { version = "1", features = ["derive"] }
serde_json = "1"
serde_yaml = "0.9"
bincode = "1"
zstd = "0.13"
chrono = "0.4"
rayon = "1"
lazy_static = "1"
