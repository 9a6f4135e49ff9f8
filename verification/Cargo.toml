[package]
name = "awa"
version = "0.1.0"
edition = "2021"
publish = false

[dependencies]
anyhow = "=1.0.104"
env_logger = "=0.11.11"
image = { version = "=0.25.10", default-features = false, features = ["png"] }
log = "=0.4.35"
pixels = "0.15"
rdev = "0.5"
serde = { version = "=1.0.229", features = ["derive"] }
serde_json = "=1.0.154"
winit = "0.30"
