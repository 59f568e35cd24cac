[package]
name = "oovra"
version = "0.2.0"
edition = "2021"
publish = false

[dependencies]
toml = { version = "0.8", features = ["preserve_order"] }
semver = "1"
chrono = "0.4"
similar = "2"
serde = { version = "1", features = ["derive"] }
serde_json = "1"
thiserror = "1"
clap = { version = "4", features = ["derive"] }
anyhow = "1"
owo-colors = "4"
walkdir = "2"
