[package]
name = "sstable"
version = "0.1.0"
edition = "2021"
publish = false

[dependencies]
anyhow = "1"
bytes = "1"
xxhash-rust = { version = "0.8", features = ["xxh32"] }
