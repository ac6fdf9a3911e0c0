[package]
name = "scr33ny"
version = "0.1.0"
edition = "2021"
publish = false

[dependencies]
anyhow = "1"
chrono = "0.4"
clap = { version = "4", features = ["derive"] }
dirs = "5"
env_logger = "0.11"
fontdue = "0.9"
image = { version = "0.25", default-features = false, features = ["gif", "png", "jpeg", "bmp", "webp"] }
log = "0.4"
reqwest = { version = "0.12", default-features = false, features = ["json", "rustls-tls"] }
serde = { version = "1", features = ["derive"] }
shellexpand = "3"
softbuffer = "0.4"
tokio = { version = "1", features = ["rt-multi-thread"] }
toml = "0.8"
winit = "0.29"
