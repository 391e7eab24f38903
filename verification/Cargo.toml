[package]
name = "highres"
version = "0.1.0"
edition = "2021"
publish = false

[dependencies]
serde = { version = "=1.0.229", features = ["derive"] }
serde_json = "=1.0.154"
anyhow = "=1.0.104"
clap = { version = "=4.6.7", features = ["derive"] }
tokio = { version = "=1.54.1", features = ["rt", "macros", "io-util", "io-std"] }
zmq = "=0.10.0"
rocksdb = { version = "=0.22.0", default-features = false, features = ["lz4"] }
redis = "=0.27.6"
config = "=0.11.0"
csv = "=1.4.0"
log = "=0.4.35"
env_logger = "=0.10.2"
once_cell = "=1.21.4"
parking_lot = "=0.12.5"
shellexpand = "=3.1.2"
