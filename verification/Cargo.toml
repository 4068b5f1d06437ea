[package]
name = "matchlab"
version = "0.1.0"
edition = "2021"
publish = false

[dependencies]
rand = { version = "=0.8.8", features = ["small_rng"] }
serde = { version = "=1.0.229", features = ["derive"] }
serde_yaml = "=0.9.34"
ndarray = "=0.16.1"
serde_json = "1"
chrono = { version = "0.4", default-features = false, features = ["clock", "std"] }
