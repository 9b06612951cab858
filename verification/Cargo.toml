[package]
name = "gift_circle"
version = "0.1.0"
edition = "2021"
publish = false

[dependencies]
anyhow = "1"
clap = { version = "4", features = ["derive"] }
counter = "*"
csv = "1"
rand = "0.8"
serde = { version = "1", features = ["derive"] }
