[package]
name = "chronik_server"
version = "0.1.0"
edition = "2021"
publish = false

[dependencies]
anyhow = "=1.0.104"
byteorder = "=1.5.0"
bytes = "=1.12.1"
crc32c = "=0.6.9"
dashmap = "=6.2.1"
murmur2 = "=0.1.0"
serde = { version = "=1.0.229", features = ["derive"] }
bincode = "=1.3.3"
thiserror = "=1.0.69"
tokio = { version = "=1.54.1", features = ["sync", "time", "rt", "macros", "io-util"] }
