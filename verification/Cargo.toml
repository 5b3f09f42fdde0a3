[package]
name = "raytracer"
version = "0.1.0"
edition = "2021"
publish = false

[dependencies]
ron = "*"
serde = { version = "1", features = ["derive"] }
config = { version = "*", default-features = false, features = ["ron"] }
libloading = "*"
