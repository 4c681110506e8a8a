[package]
name = "kv_centric"
version = "0.1.0"
edition = "2021"
publish = false

[dependencies]
kv-index = "=1.7.0"
serde = { version = "1", features = ["derive"] }
serde_json = "1"
tracing = "0.1"
