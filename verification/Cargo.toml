[package]
name = "rdc_notifier"
version = "0.1.0"
edition = "2021"
publish = false

[dependencies]
anyhow = "1"
chrono = "0.4"
clap = "2"
env_logger = "0.9"
log = "0.4"
rdc_connections = "*"
simple_webhook_msg_sender = "*"
tokio = { version = "1", features = ["full"] }
