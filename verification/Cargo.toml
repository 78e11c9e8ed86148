[package]
name = "geo_relay"
version = "0.1.0"
edition = "2021"
publish = false

[dependencies]
maxminddb = "*"
once_cell = "1"
serde = { version = "1", features = ["derive"] }
serde_yml = "0.0.12"
