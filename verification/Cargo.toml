[package]
name = "dix"
version = "0.1.0"
edition = "2021"
publish = false

[dependencies]
unicode-width = "*"
size = "*"
yansi = "*"
clap = { version = "*", features = ["derive"] }
env_logger = "*"
log = "*"
anyhow = "*"
