[package]
name = "zopfli"
version = "0.1.0"
edition = "2021"
publish = false

[dependencies]
typed-arena = "2"
clap = { version = "4", features = ["derive"] }
env_logger = "*"
log = "0.4"
