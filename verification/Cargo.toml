[package]
name = "regressor-rs"
version = "0.1.0"
edition = "2021"
publish = false

[dependencies]
ndarray = { version = "=0.17.2", features = ["serde"] }
ndarray-linalg = "=0.18.1"
serde = { version = "=1.0.229", features = ["derive"] }
serde_json = "=1.0.154"
thiserror = "=2.0.21"
pyo3 = "=0.30.1"
numpy = "=0.30.0"
