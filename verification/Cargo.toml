[package]
name = "coco"
version = "0.1.0"
edition = "2021"
publish = false

[dependencies]
anyhow = "*"
env_logger = "*"
log = "*"
memmap2 = "*"
ndarray = "*"
serde = { version = "*", features = ["derive"] }
serde_json = "*"
