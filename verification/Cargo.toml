[package]
name = "liminal_db"
version = "0.1.0"
edition = "2021"
publish = false

[dependencies]
crc32fast = "1"
blake3 = "1"
regex = "1"
serde = { version = "1", features = ["derive"] }
serde_json = "1"
serde_cbor = "0.11"
anyhow = "1"
parking_lot = "0.12"
once_cell = "1"
thiserror = "1"
