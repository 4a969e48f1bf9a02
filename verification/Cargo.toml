[package]
name = "xl_diff"
version = "0.1.0"
edition = "2021"
publish = false

[dependencies]
blake3 = "=1.8.7"
calamine = "0.24"
hex = "=0.4.3"
num_cpus = "=1.17.0"
pyo3 = { version = "=0.22.6", features = ["extension-module", "abi3-py310"] }
quick-xml = "=0.31.0"
rayon = "=1.12.0"
serde = { version = "=1.0.229", features = ["derive"] }
serde_json = "=1.0.154"
zip = { version = "0.6", default-features = false, features = ["deflate"] }
