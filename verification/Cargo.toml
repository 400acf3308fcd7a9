[package]
name = "logpipe"
version = "0.1.0"
edition = "2021"
publish = false

[dependencies]
file-rotate = "*"
parking_lot = "0.12"
env_logger = { version = "*", default-features = false }
log = "0.4"
