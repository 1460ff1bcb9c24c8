[package]
name = "terragen"
version = "0.1.0"
edition = "2021"
publish = false

[dependencies]
priority-queue = "1"
rand = "0.8"
noise = "0.8"
image = "0.24"
serde = { version = "1", features = ["derive"] }
serde_json = "1"
