[package]
name = "discac"
version = "0.1.0"
edition = "2021"
publish = false

[dependencies]
rand = "*"
serde = { version = "*", features = ["derive"] }
serde_json = "*"
serenity = { version = "*", default-features = false, features = ["http", "builder", "model", "rustls_backend"] }
tokio = { version = "*", features = ["rt", "macros"] }
