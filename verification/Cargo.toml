[package]
name = "singlenum"
version = "0.1.0"
edition = "2021"
publish = false

[dependencies]
anyhow = "*"
camino = "*"
clap = { version = "*", features = ["derive"] }
env_logger = "*"
log = "*"
serde_json = "*"
walkdir = "*"
