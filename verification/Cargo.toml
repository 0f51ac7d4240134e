[package]
name = "trin"
version = "0.1.0"
edition = "2021"
publish = false

[dependencies]
alloy-consensus = "=2.5.0"
alloy-rlp = "=0.3.16"
serde = { version = "=1.0.229", features = ["derive"] }

[dev-dependencies]
alloy-primitives = "=1.7.3"
