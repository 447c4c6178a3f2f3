[package]
name = "shellymcshellface"
version = "0.1.0"
edition = "2021"
publish = false

[dependencies]
serde_json = "1"
tokio = { version = "1", features = ["full"] }
tokio-stream = { version = "0.1", features = ["sync"] }
futures-core = "0.3"
anyhow = "1"
axum = "0.8"
portable-pty = "0.8"
crossterm = "0.28"
webbrowser = "1"
