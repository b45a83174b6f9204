[package]
name = "meta-ast"
version = "0.1.0"
edition = "2021"
publish = false

[dependencies]
blake3 = "*"
petgraph = "*"
serde = { version = "*", features = ["derive"] }
serde_json = "*"
anyhow = "*"
thiserror = "*"
tracing = "*"
clap = { version = "*", features = ["derive"] }
ignore = "*"
rayon = "*"
tree-sitter = "*"
tree-sitter-c = "*"
tree-sitter-cpp = "*"
tree-sitter-go = "*"
tree-sitter-javascript = "*"
tree-sitter-python = "*"
tree-sitter-ruby = "*"
tree-sitter-rust = "*"
tree-sitter-typescript = "*"
