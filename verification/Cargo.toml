[package]
name = "lsm_storage"
version = "0.1.0"
edition = "2021"
publish = false

[dependencies]
anyhow = "*"
axum = "*"
tokio = { version = "*", features = ["full"] }
