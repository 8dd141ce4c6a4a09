[package]
name = "kvs"
version = "0.1.0"
edition = "2021"
publish = false

[dependencies]
crossbeam-skiplist = "=0.1.3"
clap = { version = "*", features = ["derive"] }
env_logger = "*"
futures = "*"
log = "*"
serde = { version = "*", features = ["derive"] }
serde_json = "*"
tokio = { version = "*", features = ["full"] }
tokio-serde = { version = "*", features = ["json"] }
tokio-util = { version = "*", features = ["codec"] }
