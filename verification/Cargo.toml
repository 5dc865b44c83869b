[package]
name = "highlight_html"
version = "0.1.0"
edition = "2021"
publish = false

[dependencies]
tree-sitter-highlight = "0.20"

[dev-dependencies]
tree-sitter-rust = "0.20"
