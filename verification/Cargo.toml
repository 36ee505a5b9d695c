[package]
name = "toporepo"
version = "0.1.0"
edition = "2021"
publish = false

[dependencies]
tree-sitter = "*"
streaming-iterator = "*"
tree-sitter-rust = "*"
tree-sitter-python = "*"
tree-sitter-javascript = "*"
tree-sitter-typescript = "*"
tree-sitter-go = "*"
tree-sitter-java = "*"
tree-sitter-c = "*"
tree-sitter-cpp = "*"
tree-sitter-c-sharp = "*"
tree-sitter-ruby = "*"
anyhow = "*"
clap = { version = "*", features = ["derive", "env"] }
dirs = "*"
ignore = "*"
include_dir = "*"
model2vec-rs = "*"
rusqlite = { version = "*", features = ["bundled"] }
