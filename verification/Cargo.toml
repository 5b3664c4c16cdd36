[package]
name = "load_balancer"
version = "0.1.0"
edition = "2021"
publish = false

[dependencies]
circular-buffer = "=1.2.1"
tokio = { version = "=1.54.1", features = ["full"] }
hyper = { version = "=1.12.0", features = ["full"] }
hyper-util = { version = "=0.1.21", features = ["full"] }
http-body-util = "=0.1.5"
axum = { version = "=0.8.9", features = ["macros"] }
rand = "=0.9.5"
anyhow = "=1.0.104"
log = "=0.4.35"
env_logger = "=0.11.11"
