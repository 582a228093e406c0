[package]
name = "etanol"
version = "0.1.0"
edition = "2021"
publish = false

[dependencies]
regex = "1"
rnix = "*"
tower-lsp = "0.20"
tokio = { version = "1", features = ["full"] }
futures = "0.3"
