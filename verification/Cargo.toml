[package]
name = "practice_apps"
version = "0.1.0"
edition = "2021"
publish = false

[dependencies]
rand = "=0.8.8"
serde = { version = "=1.0.229", features = ["derive"] }
axum = "=0.8.9"
tokio = { version = "=1.54.1", features = ["full"] }
sqlx = { version = "=0.8.6", default-features = false, features = ["runtime-tokio", "sqlite", "macros"] }
askama = "=0.12.1"
tower-http = { version = "=0.6.11", features = ["fs"] }
eframe = { version = "0.23", default-features = false, features = ["glow", "x11"] }
