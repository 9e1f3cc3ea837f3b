[package]
name = "somnium_ui"
version = "0.1.0"
edition = "2021"
publish = false

[dependencies]
glam = "*"
serde = { version = "1", features = ["derive"] }
serde_json = "1"
winit = "=0.30.13"
