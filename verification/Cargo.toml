[package]
name = "tongwen"
version = "0.3.0"
edition = "2021"
publish = false

[dependencies]
regex = "=1.13.1"
opencc-rust = { version = "=1.1.19", features = ["static-dictionaries"] }
axum = "=0.8.9"
tokio = { version = "=1.54.1", features = ["macros", "rt-multi-thread", "net", "signal"] }
tower-http = { version = "=0.6.11", features = ["cors"] }
serde = { version = "=1.0.229", features = ["derive"] }
serde_json = "=1.0.154"
toml = "=0.8.23"
uuid = { version = "=1.29.0", features = ["v4"] }
tempfile = "=3.27.0"
