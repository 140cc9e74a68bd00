[package]
name = "btclib"
version = "0.1.0"
edition = "2021"
publish = false

[dependencies]
sha256 = { version = "1", default-features = false }
hex = "0.4"
k256 = { version = "0.13", features = ["ecdsa", "pem", "serde"] }
ecdsa = { version = "0.16", features = ["signing", "verifying", "pem", "serde"] }
spki = { version = "0.7", features = ["pem"] }
chrono = { version = "0.4", features = ["serde"] }
uuid = { version = "1", features = ["v4", "serde"] }
rand = "0.8"
serde = { version = "1", features = ["derive"] }
ciborium = "0.2"
bigdecimal = "0.4"
anyhow = "1"
thiserror = "1"
clap = { version = "4", features = ["derive"] }
toml = "0.8"
