[package]
name = "koru_lambda_core"
version = "0.1.0"
edition = "2021"
publish = false

[dependencies]
dashmap = "6"
sha2 = "0.10"
hex = "0.4"
lru = "0.12"
serde = { version = "1", features = ["derive"] }
serde_json = "1"
