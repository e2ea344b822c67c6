[package]
name = "storage_wars"
version = "0.1.0"
edition = "2021"
publish = false

[dependencies]
chrono = "0.4"
serde = { version = "1", features = ["derive"] }
serde_json = "1"
rusqlite = { version = "*", features = ["bundled"] }
dirs = "*"
anyhow = "1"
thiserror = "*"
async-channel = "2"
