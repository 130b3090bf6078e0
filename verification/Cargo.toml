[package]
name = "ipv6-router-advertisement"
version = "0.1.0"
edition = "2021"
publish = false

[dependencies]
async-trait = "0.1"
futures = "0.3"
libc = "0.2"
socket2 = { version = "0.6", features = ["all"] }
tokio = { version = "1", features = ["macros", "net", "rt", "sync", "time"] }
tokio-stream = { version = "0.1", features = ["sync"] }
tracing = "0.1"
