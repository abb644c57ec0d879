[package]
name = "asmo"
version = "0.5.0"
edition = "2021"
publish = false

[dependencies]
axum = "=0.7.9"
clap = { version = "=4.6.7", features = ["derive"] }
libc = "=0.2.191"
local-ip-address = "=0.6.13"
serde = { version = "=1.0.229", features = ["derive", "rc"] }
serde_json = { version = "=1.0.154", features = ["preserve_order"] }
tokio = { version = "=1.54.1", features = ["full"] }
tracing = "=0.1.44"
tracing-subscriber = { version = "=0.3.23", features = ["env-filter"] }
