[package]
name = "movies_db"
version = "0.1.0"
edition = "2021"
publish = false

[dependencies]
uuid = { version = "*", features = ["v4"] }
chrono = "*"
rusqlite = { version = "*", features = ["bundled"] }
clap = { version = "*", features = ["derive"] }
log = "*"
env_logger = "*"
