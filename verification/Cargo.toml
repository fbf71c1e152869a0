[package]
name = "dcapi_matcher"
version = "0.1.0"
edition = "2021"
publish = false

[dependencies]
base64 = "=0.22.1"
c8str = { version = "=0.2.1", features = ["alloc"] }
rustc-hash = "=2.1.3"
serde = { version = "=1.0.229", features = ["derive"] }
serde_json = "=1.0.154"
thiserror = "=2.0.21"
