[package]
name = "debugger"
version = "0.1.0"
edition = "2021"
publish = false

[dependencies]
anyhow = "*"
async-std = { version = "*", features = ["attributes"] }
serde = { version = "*", features = ["derive"] }
serde_json = "*"
tide = "*"
