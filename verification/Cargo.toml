[package]
name = "vjnode"
version = "0.1.0"
edition = "2021"
publish = false

[dependencies]
uuid = { version = "1", features = ["serde", "v4"] }
serde = { version = "1", features = ["derive"] }
egui = { version = "0.27", features = ["serde"] }
cpal = "0.15"
rustfft = "6"
pollster = "0.3"
env_logger = "0.11"
