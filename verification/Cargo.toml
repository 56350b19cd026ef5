[package]
name = "imos"
version = "0.1.0"
edition = "2021"
publish = false

[dependencies]
anyhow = "1"
clap = { version = "4", features = ["derive", "env"] }
directories = "*"
flate2 = "1"
fs2 = "0.4"
hex = "0.4"
reqwest = { version = "0.12", default-features = false, features = ["rustls-tls", "stream"] }
rusqlite = { version = "*", features = ["bundled"] }
serde = { version = "1", features = ["derive"] }
serde_json = "1"
sha2 = "*"
tar = "0.4"
tempfile = "3"
tokio = { version = "1", features = ["full"] }
url = "2"
zstd = "0.13"
