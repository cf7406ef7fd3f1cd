[package]
name = "dns_server"
version = "0.1.0"
edition = "2021"
publish = false

[dependencies]
anyhow = "1"
log = "0.4"
env_logger = "0.10"
tokio = { version = "1", features = ["rt-multi-thread", "macros", "net", "sync"] }
