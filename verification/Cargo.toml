[package]
name = "windelta"
version = "0.1.0"
edition = "2021"
publish = false

[dependencies]
clap = { version = "*", features = ["derive"] }
crossbeam-channel = "*"
indicatif = "*"
log = "*"
pretty_env_logger = "*"
rust-htslib = { version = "*", default-features = false }
serde = { version = "*", features = ["derive"] }
serde_json = "*"
