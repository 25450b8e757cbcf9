[package]
name = "lsp_translations"
version = "0.1.0"
edition = "2021"
publish = false

[dependencies]
regex = "*"
country-emoji = "*"
glob = "*"
path-clean = "*"
serde = { version = "*", features = ["derive"] }
serde_json = "*"
serde_regex = "*"
tokio = { version = "*", features = ["rt-multi-thread", "io-std", "macros"] }
tower-lsp = "*"
tree-sitter = "*"
tree-sitter-json = "*"
tree-sitter-yaml = "*"
tree-sitter-php = "*"
