[package]
name = "daynotes"
version = "0.1.0"
edition = "2021"
publish = false

[dependencies]
anyhow = "1"
chrono = { version = "0.4", default-features = false, features = ["std", "clock"] }
git2 = { version = "0.18", default-features = false }
regex = "1"
serde = { version = "1", features = ["derive"] }
serde_json = "1"
