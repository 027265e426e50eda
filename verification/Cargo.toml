[package]
name = "cloudiful-config"
version = "0.6.1"
edition = "2021"
publish = false

[dependencies]
serde = { version = "1", features = ["derive"] }
serde_json = "1"
toml = "*"
dotenvy = "*"
keyring = "*"
keyring-core = "*"
rusqlite = { version = "*", features = ["bundled"] }
postgres = "*"
