[package]
name = "distributed_rate_limiter"
version = "0.1.0"
edition = "2021"
publish = false

[dependencies]
crossbeam = "0.8"
serde = { version = "1", features = ["derive"] }

[dev-dependencies]
rand = "0.9"
