[package]
name = "asterisk"
version = "0.1.0"
edition = "2021"
publish = false

[dependencies]
jwalk = "*"
serde = { version = "1", features = ["derive"] }
serde_json = "1"
toml = "*"
tree-sitter = "*"
tree-sitter-javascript = "*"
tree-sitter-python = "*"
tree-sitter-rust = "*"
