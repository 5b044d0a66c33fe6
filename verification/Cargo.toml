[package]
name = "claude_monitor"
version = "0.1.0"
edition = "2021"
publish = false

[dependencies]
serde = { version = "1", features = ["derive"] }
serde_json = "1"
chrono = "0.4"
sha2 = "0.10"
base64 = "0.22"
similar = "2"
subtle = "2"
rand = "0.9"
dirs = "*"
rusqlite = { version = "*", features = ["bundled"] }
