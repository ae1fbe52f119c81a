[package]
name = "cusf_sidechain"
version = "0.1.0"
edition = "2021"
publish = false

[dependencies]
blake3 = { version = "1", default-features = false, features = ["pure"] }
bincode = "1.3"
serde = { version = "1", features = ["derive"] }
heed = "*"
miette = "*"
tokio = { version = "1", features = ["rt-multi-thread", "macros"] }
tonic = "*"
dirs = "*"
confy = "*"
hex = "0.4"
bs58 = { version = "0.5", features = ["check"] }
bitcoin = "*"
