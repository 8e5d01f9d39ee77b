[package]
name = "lsp-notebook"
version = "0.1.0"
edition = "2021"
publish = false

[dependencies]
tree-sitter = "0.19"
tree-sitter-markdown = "*"
lsp-types = "0.94"
tower-lsp = "0.20"
tokio = { version = "1", features = ["io-std", "macros", "rt-multi-thread"] }
serde_json = "1"
log = "0.4"
simplelog = "0.12"
env_logger = "0.10"
