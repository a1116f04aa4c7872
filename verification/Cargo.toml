[package]
name = "modux"
version = "0.7.2"
edition = "2021"
publish = false

[dependencies]
anyhow = "1"
clap = { version = "4", features = ["derive"] }
full_moon = { version = "*", features = ["luau"] }
serde = { version = "1", features = ["derive"] }
serde_json = "1"
walkdir = "2"
