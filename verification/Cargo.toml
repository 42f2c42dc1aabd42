[package]
name = "contextmesh"
version = "0.1.0"
edition = "2021"
publish = false

[dependencies]
sha2 = "0.10"
tree-sitter = "0.20"
tree-sitter-rust = "0.20"
clap = { version = "4", features = ["derive"] }
log = "0.4"
env_logger = "0.10"
arboard = { version = "3", default-features = false }
