[package]
name = "hex_microservice"
version = "0.1.0"
edition = "2021"
publish = false

[dependencies]
shortid = "=1.0.6"
redis = "=1.7.1"
warp = { version = "=0.4.3", features = ["server"] }
tokio = { version = "=1.53.2", features = ["rt-multi-thread", "macros"] }
bytes = "=1.12.1"
log = "=0.4.34"
pretty_env_logger = "=0.5.0"
mongodb = { version = "=3.9.1", features = ["sync"] }
serde = { version = "=1.0.229", features = ["derive"] }
