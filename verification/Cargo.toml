[package]
name = "multihop_filter"
version = "0.1.0"
edition = "2021"
publish = false

[dependencies]
anyhow = "1"
bincode = "1.3"
bit-set = "0.8"
hashbrown = "0.16"
serde = { version = "1", features = ["derive"] }
serde_json = "1"
