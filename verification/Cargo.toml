[package]
name = "pcc"
version = "0.1.0"
edition = "2021"
publish = false

[dependencies]
regex = "1"
tree-sitter = "0.20"
tree-sitter-typescript = "0.20"
oxc_resolver = "1"
serde = { version = "1", features = ["derive"] }
serde_json = "1"
toml = "0.8"
clap = { version = "4", features = ["derive"] }
clipboard = "0.5"
ignore = "0.4"
