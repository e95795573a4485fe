[package]
name = "matching_core"
version = "0.1.0"
edition = "2021"
publish = false

[dependencies]
ahash = { version = "0.8", features = ["serde"] }
anyhow = "1"
bincode = "1"
disruptor = "3"
rkyv = { version = "0.7", features = ["validation"] }
serde = { version = "1", features = ["derive"] }
slab = { version = "0.4", features = ["serde"] }
smallvec = { version = "1", features = ["serde"] }
