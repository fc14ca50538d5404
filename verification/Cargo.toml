[package]
name = "lapce_completion"
version = "0.1.0"
edition = "2021"
publish = false

[dependencies]
fuzzy-matcher = "0.3"
lsp-types = "*"
serde_json = "*"
