[package]
name = "mlsys"
version = "0.1.0"
edition = "2021"
publish = false

[dependencies]
anyhow = "1.0"
bit-set = "0.8"
env_logger = "0.11"
log = "0.4"
nix = { version = "0.29", features = ["process", "fs"] }
rayon = "1.10"
serde = { version = "1.0", features = ["derive"] }
serde_json = "1.0"
