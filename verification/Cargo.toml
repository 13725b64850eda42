[package]
name = "majsoul_history"
version = "0.1.0"
edition = "2021"
publish = false

[dependencies]
anyhow = "*"
askama = "*"
axum = "*"
chrono = "*"
reqwest = { version = "*", default-features = false, features = ["json"] }
serde_json = "*"
tokio = { version = "*", features = ["rt-multi-thread", "macros", "net"] }
