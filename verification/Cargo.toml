[package]
name = "mkfiles"
version = "0.1.0"
edition = "2021"
publish = false

[dependencies]
anyhow = "1"
chrono = "0.4"
csv = "1"
sacio = "*"
serde = { version = "1", features = ["derive"] }
walkdir = "2"
