[package]
name = "memcached_core"
version = "0.1.0"
edition = "2021"
publish = false

[dependencies]
async-trait = "*"
env_logger = "*"
futures = "*"
log = "*"
tokio = { version = "*", features = ["rt-multi-thread", "net", "macros", "sync", "io-util", "time"] }
tokio-stream = "*"
tokio-util = { version = "*", features = ["codec"] }
