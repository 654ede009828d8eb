[package]
name = "btclib"
version = "0.1.0"
edition = "2021"
publish = false

[dependencies]
bigdecimal = "0.4"
chrono = { version = "0.4", features = ["serde"] }
ecdsa = "0.16"
k256 = { version = "0.13", features = ["ecdsa"] }
sha2 = "0.10"
uuid = { version = "1", features = ["v4", "serde"] }
serde = { version = "1", features = ["derive"] }
ciborium = "0.2"
tokio = { version = "1", features = ["full"] }
anyhow = "1"
argh = "0.1"
clap = { version = "4", features = ["derive"] }
dashmap = "6"
flume = "0.11"
static_init = "1"
