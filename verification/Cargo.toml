[package]
name = "lit"
version = "0.1.0"
edition = "2021"
publish = false

[dependencies]
sha2 = "0.10"
similar = "2"
serde = { version = "1", features = ["derive"] }
serde_json = "1"
toml = "0.8"
chrono = "0.4"
clap = { version = "4", features = ["derive"] }
colored = "2"
anyhow = "1"
git2 = { version = "0.19", default-features = false }
reqwest = { version = "0.12", default-features = false, features = ["blocking", "json", "rustls-tls"] }
