[package]
name = "aes_extractor"
version = "0.1.0"
edition = "2021"
publish = false

[dependencies]
clap = { version = "4", features = ["derive"] }
colour = "*"
serde = { version = "1", features = ["derive"] }
serde_json = "1"
