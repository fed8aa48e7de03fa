[package]
name = "battery_core"
version = "0.1.0"
edition = "2021"
publish = false

[dependencies]
chrono = "0.4"
dirs = "*"
log = "0.4"
regex = "1"
rusqlite = { version = "*", features = ["bundled"] }
serde = { version = "1", features = ["derive"] }
serde_json = "1"
