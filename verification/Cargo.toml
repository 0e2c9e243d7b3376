[package]
name = "blazingly_json"
version = "0.1.0"
edition = "2021"
publish = false

[dependencies]
memchr = "=2.8.3"
itoa = "=1.0.18"
serde = { version = "=1.0.229", features = ["derive"] }
lexical-core = { version = "=1.0.6", features = ["format"] }
zmij = "=1.0.23"

[dev-dependencies]
serde_json = { version = "1", features = ["raw_value"] }
