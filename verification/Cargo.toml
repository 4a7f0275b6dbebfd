[package]
name = "rsrrc"
version = "0.1.0"
edition = "2021"
publish = false

[dependencies]
anyhow = "1"
rand = "0.8"
regex = "1"
serde_cbor = "0.11"
sha2 = "0.10"
