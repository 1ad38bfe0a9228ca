[package]
name = "jsrmx"
version = "0.1.0"
edition = "2021"
publish = false

[dependencies]
regex = "*"
clap = { version = "*", features = ["derive"] }
log = "*"
env_logger = "*"
