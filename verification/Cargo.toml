[package]
name = "scraping_service"
version = "0.1.0"
edition = "2021"
publish = false

[dependencies]
anyhow = "*"
arrow = "*"
aws-config = "*"
aws-sdk-s3 = "*"
chrono = "*"
chrono-tz = "*"
parquet = { version = "*", features = ["arrow"] }
serde = { version = "*", features = ["derive"] }
serde_json = "*"
tokio = { version = "*", features = ["rt-multi-thread", "macros", "sync", "time"] }
