[package]
name = "atlas_core"
version = "0.1.0"
edition = "2021"
publish = false

[dependencies]
anyhow = "=1.0.104"
chrono = { version = "=0.4.45", default-features = false, features = ["std", "clock"] }
chrono-tz = "=0.10.4"
hmac = "=0.12.1"
sha2 = "=0.10.9"
ical = "=0.11.0"
url = "=2.5.8"
uuid = { version = "=1.29.0", features = ["v4", "v5"] }
serde = { version = "=1.0.229", features = ["derive"] }
serde_json = "=1.0.154"
sqlx = { version = "=0.8.6", default-features = false, features = ["runtime-tokio", "any", "sqlite", "postgres"] }
tokio = { version = "=1.54.1", features = ["rt", "macros", "time"] }
