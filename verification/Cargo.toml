[package]
name = "rowbinary_client"
version = "0.1.0"
edition = "2021"
publish = false

[dependencies]
url = "=2.5.8"
bytes = "=1.12.1"
futures = "=0.3.34"
hyper = { version = "=0.14.32", features = ["client", "http1", "stream", "tcp", "runtime"] }
serde = "=1.0.229"
serde_json = "=1.0.151"
serde_with = "=3.24.0"
