[package]
name = "nss"
version = "0.1.0"
edition = "2021"
publish = false

[dependencies]
sha1 = "*"
hex = "*"
flate2 = "*"
chrono = "*"
serde = { version = "*", features = ["derive"] }
toml = "*"
dirs = "*"
whoami = "*"
anyhow = "*"
