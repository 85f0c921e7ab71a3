[package]
name = "trainlog"
version = "0.1.0"
edition = "2021"
publish = false

[dependencies]
chrono = { version = "0.4", default-features = false, features = ["std", "now", "serde"] }
serde = { version = "1", features = ["derive"] }
tauri = { version = "2", default-features = false }
