[package]
name = "nimaproxy"
version = "0.15.7"
edition = "2021"
publish = false

[dependencies]
axum = "0.7"
bytes = "1"
chrono = { version = "0.4", features = ["serde"] }
futures = "0.3"
libc = "0.2"
reqwest = { version = "0.12", default-features = false, features = ["rustls-tls", "json", "stream", "blocking"] }
serde = { version = "1", features = ["derive"] }
serde_json = "1"
tokio = { version = "1", features = ["full"] }
toml = "0.8"
tracing = "0.1"
tracing-subscriber = { version = "0.3", features = ["env-filter", "fmt"] }
