[package]
name = "raytracer"
version = "0.1.0"
edition = "2021"
publish = false

[dependencies]
rand = "0.9"
serde = { version = "1", features = ["derive"] }
toml = "0.8"
image = { version = "0.25", default-features = false, features = ["png", "jpeg"] }
