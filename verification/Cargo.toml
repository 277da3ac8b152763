[package]
name = "dlc_venc_adaptor"
version = "0.1.0"
edition = "2021"
publish = false

[dependencies]
anyhow = "=1.0.104"
bincode = { version = "=2.0.1", features = ["serde"] }
clap = { version = "=3.2.25", features = ["derive"] }
curve25519-dalek-ng = { version = "=3.0.3", features = ["serde"] }
rand = "=0.7.3"
serde = { version = "=1.0.229", features = ["derive"] }
sha2 = "=0.9.9"
zkp = "=0.8.0"
