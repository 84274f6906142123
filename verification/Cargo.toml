[package]
name = "rusting"
version = "0.1.0"
edition = "2021"
publish = false

[dependencies]
rs_merkle = "=1.5.0"
sha2 = "=0.10.9"
sha3 = "0.10"
reed-solomon-erasure = "=6.0.0"
rand = "=0.8.8"
schnorrkel = "=0.11.5"
serde_json = "=1.0.154"
serde = { version = "=1.0.229", features = ["derive"] }
data-encoding = "=2.11.1"
hex = "=0.4.3"
tokio = { version = "=1.54.1", features = ["full"] }
tokio-util = { version = "=0.7.20", features = ["codec"] }
bytes = "=1.12.1"
futures = "=0.3.34"
bincode = "=1.3.3"
chrono = "=0.4.45"
