[package]
name = "wayscope"
version = "0.1.0"
edition = "2021"
publish = false

[dependencies]
anyhow = "*"
clap = { version = "*", features = ["derive"] }
dirs = "*"
owo-colors = "*"
serde = { version = "*", features = ["derive"] }
serde_yaml = "*"
