[package]
name = "hashgraph"
version = "0.1.0"
edition = "2021"
publish = false

[dependencies]
bincode = "1.3"
blake2 = "0.10"
rust-crypto = "0.2"
serde = { version = "1", features = ["derive"] }
serde-big-array = "0.5"
serde_json = "1"
thiserror = "1"
tracing = "0.1"
