[package]
name = "neuralfs"
version = "0.1.0"
edition = "2021"
publish = false

[dependencies]
anyhow = "1"
base64 = "=0.22.1"
bincode = "1"
blake3 = "=1.8.7"
chrono = "0.4"
clap = { version = "4", features = ["derive"] }
dirs = "5"
fuser = { version = "=0.14.0", default-features = false, features = ["abi-7-23"] }
hashlink = "=0.9.1"
libc = "0.2"
log = { version = "0.4", features = ["std"] }
ndarray = { version = "0.15", features = ["serde"] }
notify = "6"
parking_lot = "0.12"
serde = { version = "1", features = ["derive"] }
serde_json = "1"
sled = "0.34"
tokio = { version = "1", features = ["full"] }
toml = "0.8"
walkdir = "2"
