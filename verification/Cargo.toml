[package]
name = "gravity"
version = "0.1.0"
edition = "2021"
publish = false

[dependencies]
clap = { version = "4", features = ["derive"] }
glam = "0.30"
rand = "0.10"
rayon = "1"
serde = { version = "1", features = ["derive"] }
toml = "0.8"
