[package]
name = "osap_host"
version = "0.1.0"
edition = "2021"
publish = false

[dependencies]
semver = "=1.0.28"
serde = { version = "=1.0.229", features = ["derive"] }
toml = "=1.1.8"
anyhow = "=1.0.104"
serde_json = "1"
ureq = "3"
