[package]
name = "dnsrelay"
version = "0.1.0"
edition = "2021"
publish = false

[dependencies]
ttl_cache = "*"
tokio = { version = "*", features = ["full"] }
futures = "*"
bytes = "*"
log = "*"
env_logger = "*"
