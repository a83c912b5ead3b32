[package]
name = "btclib"
version = "0.1.0"
edition = "2021"
publish = false

[dependencies]
sha256 = "1"
k256 = { version = "0.13", features = ["ecdsa"] }
ecdsa = { version = "0.16", features = ["signing", "verifying"] }
rand = "0.8"
uuid = { version = "1", features = ["v4", "serde"] }
chrono = { version = "0.4", features = ["serde"] }
serde = { version = "1", features = ["derive"] }
ciborium = "0.2"
tokio = { version = "1", features = ["full"] }
clap = { version = "4", features = ["derive"] }
anyhow = "1"
thiserror = "2"
strum = { version = "0.26", features = ["derive"] }
hex = "0.4"
flume = "0.11"
kanal = "0.1"
crossbeam-skiplist = "0.1"
toml = "0.8"
dirs = "5"
