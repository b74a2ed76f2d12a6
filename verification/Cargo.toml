[package]
name = "aider_patcher"
version = "0.1.0"
edition = "2021"
publish = false

[dependencies]
similar = "2"
tree-sitter = "*"
tree-sitter-rust = "*"
tree-sitter-typescript = "*"
clap = { version = "4", features = ["derive"] }
serde = { version = "1", features = ["derive"] }
serde_json = "1"
