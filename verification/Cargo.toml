[package]
name = "ruchy-docker"
version = "0.1.0"
edition = "2021"
publish = false

[dependencies]
anyhow = "=1.0.104"
bollard = "=0.18.1"
clap = { version = "=4.6.7", features = ["derive"] }
env_logger = "=0.11.11"
futures-util = "=0.3.34"
log = "=0.4.34"
serde = { version = "=1.0.229", features = ["derive"] }
serde_json = "=1.0.154"
tracing = "=0.1.44"
tracing-subscriber = { version = "=0.3.23", features = ["env-filter"] }
trueno = "=0.19.1"
uuid = { version = "=1.29.0", features = ["v4"] }

[dev-dependencies]
regex = "=1.13.1"
