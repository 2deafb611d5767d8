[package]
name = "qsolve"
version = "0.1.0"
edition = "2021"
publish = false

[dependencies]
anyhow = "*"
clap = { version = "*", features = ["derive"] }
crossterm = "*"
env_logger = "*"
image = { version = "*", default-features = false, features = ["png", "jpeg", "webp"] }
itertools = "*"
log = "*"
owo-colors = "*"

[dev-dependencies]
regex = "*"
