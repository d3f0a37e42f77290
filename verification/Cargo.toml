[package]
name = "kvs"
version = "0.1.0"
edition = "2021"
publish = false

[dependencies]
byteorder = "1"
dashmap = "5"
env_logger = "0.9"
failure = "0.1"
futures = "0.3"
log = "0.4"
num_cpus = "1"
rayon = "1"
serde = { version = "1", features = ["derive"] }
serde_json = "1"
sled = "0.34"
structopt = "0.3"
tokio = { version = "1", features = ["full"] }
tokio-serde = { version = "0.8", features = ["bincode"] }
tokio-util = { version = "0.7", features = ["codec"] }
