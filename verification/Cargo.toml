[package]
name = "retriever"
version = "0.1.0"
edition = "2021"
publish = false

[dependencies]
serde_json = "*"
clap = { version = "*", features = ["derive"] }
env_logger = "*"
log = "*"
anyhow = "*"
