[package]
name = "notevault"
version = "0.1.0"
edition = "2021"
publish = false

[dependencies]
sha2 = "0.10"
serde = { version = "1", features = ["derive"] }
serde_json = "1"
serde_yaml = "0.9"
chrono = "0.4"
rusqlite = { version = "0.31", features = ["bundled"] }
walkdir = "2"
thiserror = "1"
log = "0.4"

[dev-dependencies]
regex = "1"
