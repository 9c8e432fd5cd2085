[package]
name = "pq_vector"
version = "0.1.0"
edition = "2021"
publish = false

[dependencies]
rand = "0.8"
arrow = { version = "*", default-features = false }
parquet = { version = "*", default-features = false, features = ["arrow", "async"] }
futures = "0.3"
tokio = { version = "1", features = ["fs", "rt", "io-util"] }
