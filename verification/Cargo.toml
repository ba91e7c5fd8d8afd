[package]
name = "lighting_overlay"
version = "0.1.0"
edition = "2021"
publish = false

[dependencies]
clap = { version = "*", features = ["derive"] }
color-eyre = "*"
image = "*"
serde = { version = "*", features = ["derive"] }
serde_json = "*"
