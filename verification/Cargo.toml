[package]
name = "vlc"
version = "0.1.0"
edition = "2021"
publish = false

[dependencies]
bincode = "1"
serde = { version = "1", features = ["derive"] }
serde_json = "1"
sha2 = "0.10"
aws-nitro-enclaves-nsm-api = "*"
aws-nitro-enclaves-attestation = "*"
tokio = { version = "1", features = ["net", "sync", "io-util", "rt-multi-thread", "macros", "time"] }
nix = { version = "*", features = ["socket"] }
anyhow = "1"
