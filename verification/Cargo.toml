[package]
name = "cleaning_bot"
version = "0.1.0"
edition = "2021"
publish = false

[dependencies]
anyhow = "=1.0.104"
axum = "=0.8.9"
chrono = { version = "=0.4.45", features = ["serde"] }
chrono-tz = "=0.10.4"
hex = "=0.4.3"
matrix-sdk = { version = "=0.16.1", default-features = false, features = ["rustls-tls", "markdown"] }
mime = "0.3"
rand = "=0.8.8"
serde = { version = "1", features = ["derive"] }
serde_json = "=1.0.154"
sha2 = "=0.10.9"
tempfile = "3"
tokio = { version = "1", features = ["full"] }
toml = "0.8"
tracing = "0.1"
uuid = { version = "=1.29.0", features = ["v4", "v5"] }
