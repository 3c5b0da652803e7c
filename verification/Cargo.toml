[package]
name = "raytracer"
version = "0.1.0"
edition = "2021"
publish = false

[dependencies]
clap = "*"
console = "*"
image = "*"
indicatif = "*"
rayon = "*"
serde = { version = "*", features = ["derive"] }
serde_yaml = "*"
