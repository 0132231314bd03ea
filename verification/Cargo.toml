[package]
name = "couchstore"
version = "0.1.0"
edition = "2021"
publish = false

[dependencies]
crc32c = "*"
snap = "*"
parking_lot = "*"
serde_json = "*"
