[package]
name = "taper"
version = "0.1.0"
edition = "2021"
publish = false

[dependencies]
fastrand = "2"
rand = "0.9"
arrow = { version = "*", default-features = false }
parquet = { version = "*", default-features = false, features = ["arrow", "snap"] }
futures = "0.3"
tokio = { version = "1", features = ["rt", "rt-multi-thread", "time"] }
serde = { version = "1", features = ["derive"] }
