[package]
name = "flyover"
version = "0.1.0"
edition = "2021"
publish = false

[dependencies]
zstd = "=0.13.4"
ruzstd = "=0.8.3"
serde = { version = "=1.0.229", features = ["derive"] }
serde_json = "=1.0.154"
clap = { version = "=4.6.7", features = ["derive"] }
anyhow = "=1.0.104"
thiserror = "=2.0.21"
ignore = "=0.4.34"
blake3 = "=1.8.7"
rayon = "=1.12.0"
rusqlite = { version = "=0.41.1", features = ["bundled"] }
tree-sitter = "=0.25.10"
tree-sitter-rust = "=0.24.2"
tree-sitter-go = "=0.25.0"
tree-sitter-python = "=0.25.0"
tree-sitter-javascript = "=0.25.0"
tree-sitter-typescript = "=0.23.2"
tree-sitter-c = "=0.24.2"
tree-sitter-cpp = "=0.23.4"
tree-sitter-java = "=0.23.5"
tree-sitter-c-sharp = "=0.23.5"
tree-sitter-ruby = "=0.23.1"
tree-sitter-php = "=0.25.1"
