[package]
name = "gridx2"
version = "0.1.0"
edition = "2021"
publish = false

[dependencies]
anyhow = "1"
home = "*"
image = { version = "0.25", default-features = false, features = ["png", "jpeg"] }
rayon = "1"
serde = { version = "1", features = ["derive"] }
toml = "*"
walkdir = "2"
