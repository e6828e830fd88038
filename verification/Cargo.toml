[package]
name = "ckb_node"
version = "0.1.0"
edition = "2021"
publish = false

[dependencies]
anyhow = "1"
blake2b-ref = "0.3"
serde = { version = "1", features = ["derive"] }
serde_json = "1"
sled = "0.34"
tempfile = "3"

[dev-dependencies]
