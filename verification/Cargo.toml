[package]
name = "dataflex_lsp"
version = "0.1.0"
edition = "2021"
publish = false

[dependencies]
rust-ini = "*"
tower-lsp = "*"
tokio = { version = "*", features = ["full"] }
dashmap = "*"
rayon = "*"
log = "*"
simplelog = "*"
log-panics = "*"
dirs = "*"
