[package]
name = "saan"
version = "0.1.0"
edition = "2021"
publish = false

[dependencies]
petgraph = "=0.6.5"
sqlparser = "=0.50.0"
duckdb = { version = "=1.20000.1", default-features = false }
thiserror = "=1.0.69"
walkdir = "=2.5.0"
serde = { version = "=1.0.229", features = ["derive"] }
serde_json = "=1.0.154"
clap = { version = "=4.6.7", features = ["derive"] }
anyhow = "=1.0.104"
wasm-bindgen = "=0.2.130"
pyo3 = "=0.23.5"

[dev-dependencies]
tempfile = "=3.27.0"
