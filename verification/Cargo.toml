[package]
name = "dns_in_a_weekend"
version = "0.1.0"
edition = "2021"
publish = false

[dependencies]
structure = "*"
rand = "0.8"
thiserror = "1"
clap = { version = "4", features = ["derive"] }
log = "0.4"
env_logger = "0.10"
