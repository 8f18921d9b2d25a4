[package]
name = "ipld_cbor"
version = "0.1.0"
edition = "2021"
publish = false

[dependencies]
serde = { version = "1", features = ["derive"] }
serde_bytes = "0.11"
serde_cbor = { version = "0.11", features = ["tags"] }
