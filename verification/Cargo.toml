[package]
name = "keyvalue_store"
version = "0.1.0"
edition = "2021"
publish = false

[dependencies]
key-vec = "=0.4.1"
wascc-codec = "=0.6.0"
tea-codec = "=0.1.1"
log = "=0.4.34"
env_logger = "=0.11.11"
rmp = "=0.8.9"
serde = { version = "=1.0.229", features = ["derive"] }
