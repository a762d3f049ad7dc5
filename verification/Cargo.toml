[package]
name = "snapdb"
version = "0.1.0"
edition = "2021"
publish = false

[dependencies]
digest = "0.8"
sha2 = "0.8"
sha3 = "0.8"
serde = { version = "1", features = ["derive"] }
serde_bytes = "0.11"
serde_cbor = "0.11"
serde_json = "1"
ignore = "0.4"
