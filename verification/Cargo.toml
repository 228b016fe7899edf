[package]
name = "repx"
version = "0.2.0"
edition = "2021"
publish = false

[dependencies]
anyhow = "1"
aya = "0.13"
aya-ebpf = "0.1"
base64 = "0.22"
clap = { version = "4", features = ["derive"] }
ed25519-dalek = "2"
env_logger = "0.11"
hex = "0.4"
log = "0.4"
nix = { version = "0.29", features = ["process", "signal"] }
rand = "0.8"
serde = { version = "1", features = ["derive"] }
serde_json = "1"
sha2 = "0.10"
