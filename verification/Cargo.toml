[package]
name = "archivindex-wbm"
version = "0.1.0"
edition = "2021"
publish = false

[dependencies]
anyhow = "=1.0.104"
chrono = { version = "=0.4.45", default-features = false, features = ["clock", "std"] }
clap = { version = "=4.6.7", features = ["derive"] }
csv = "=1.4.0"
flate2 = "=1.1.10"
prefix-file-tree = "*"
redb = "=3.1.3"
reqwest = { version = "=0.12.28", default-features = false, features = ["rustls-tls", "socks"] }
rusqlite = { version = "=0.37.0", features = ["bundled"] }
serde = { version = "=1.0.229", features = ["derive"] }
serde_json = { version = "=1.0.154", features = ["raw_value"] }
sha1 = "=0.10.7"
tokio = { version = "=1.54.1", features = ["rt-multi-thread", "macros", "time"] }
url = "=2.5.8"
zstd = "=0.13.4"
