[package]
name = "moodjourney"
version = "0.1.0"
edition = "2021"
publish = false

[dependencies]
chrono = "*"
uuid = { version = "*", features = ["v4"] }
sha2 = "*"
rusqlite = { version = "*", features = ["bundled"] }
dirs = "*"
