[package]
name = "mig"
version = "0.1.0"
edition = "2021"
publish = false

[dependencies]
anyhow = "1"
clap = { version = "4", features = ["derive"] }
gix = "*"
tree-sitter = "0.26"
tree-sitter-c = "*"
tree-sitter-css = "*"
tree-sitter-html = "*"
tree-sitter-javascript = "*"
tree-sitter-rust = "*"
tree-sitter-typescript = "*"
