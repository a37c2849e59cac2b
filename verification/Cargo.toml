[package]
name = "codeowners"
version = "0.1.0"
edition = "2021"
publish = false

[dependencies]
error-stack = "0.6"
fast-glob = "=1.1.2"
glob = "=0.3.4"
regex = "=1.13.1"
serde = { version = "=1.0.229", features = ["derive"] }
serde_json = { version = "=1.0.154", features = ["preserve_order"] }
similar = "=2.7.0"
