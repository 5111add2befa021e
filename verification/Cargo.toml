[package]
name = "pullauta"
version = "0.1.0"
edition = "2021"
publish = false

[dependencies]
anyhow = "*"
bincode = { version = "2", features = ["serde"] }
env_logger = "*"
log = "*"
rustc-hash = "*"
serde = { version = "1", features = ["derive"] }
