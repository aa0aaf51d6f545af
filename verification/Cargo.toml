[package]
name = "nali"
version = "0.1.0"
edition = "2021"
publish = false

[dependencies]
regex = "1"
colored = "2"
dirs = "5"
maxminddb = "0.24"
serde = { version = "1", features = ["derive"] }
sys-locale = "0.3"
toml = "0.8"
