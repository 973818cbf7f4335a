[package]
name = "lessons"
version = "0.1.0"
edition = "2021"
publish = false

[dependencies]
anyhow = "1"
env_logger = "0.11"
epoll = "4"
futures-util = "0.3"
log = "0.4"
nix = { version = "0.29", features = ["fs"] }
serde = { version = "1", features = ["derive"] }
serde_json = "1"
tokio = { version = "1", features = ["full"] }
