[package]
name = "runestone"
version = "0.1.0"
edition = "2021"
publish = false

[dependencies]
bitcoin = "0.30"
serde = { version = "1", features = ["derive"] }
serde_json = "1"
clap = { version = "4", features = ["derive"] }
axum = "0.6"
axum-server = "0.5"
tokio = { version = "1", features = ["rt", "rt-multi-thread"] }
