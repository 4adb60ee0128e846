[package]
name = "ql"
version = "0.1.0"
edition = "2021"
publish = false

[dependencies]
serde_json = "=1.0.154"
tree-sitter = "=0.27.1"
tree-sitter-typescript = "=0.23.2"
