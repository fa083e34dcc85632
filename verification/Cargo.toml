[package]
name = "parquetry"
version = "0.1.0"
edition = "2021"
publish = false

[dependencies]
parquet = "=60.0.0"
chrono = { version = "=0.4.45", features = ["serde"] }
serde = { version = "=1.0.229", features = ["derive"] }
bincode = { version = "=2.0.1", features = ["serde"] }
thiserror = "=2.0.21"
