[package]
name = "combathelper"
version = "0.1.0"
edition = "2021"
publish = false

[dependencies]
rand = "*"
serde = { version = "*", features = ["derive"] }
serde_json = "*"
clap = { version = "*", features = ["derive"] }
comfy-table = "*"
reedline = "*"
anyhow = "*"
