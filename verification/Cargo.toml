[package]
name = "consensus"
version = "0.1.0"
edition = "2021"
publish = false

[dependencies]
ed25519-dalek = { version = "1.0.1", features = ["batch"] }
threshold_crypto = "0.4"
base64 = "0.13"
rand = "0.7"
serde = { version = "1", features = ["derive"] }
bincode = "1"
tokio = { version = "1", features = ["sync", "rt", "macros", "time"] }
futures = "0.3"
log = "0.4"
async-recursion = "1"
