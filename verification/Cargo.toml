[package]
name = "continuo"
version = "0.1.0"
edition = "2021"
publish = false

[dependencies]
libm = "0.2"
serde = { version = "1", features = ["derive"] }
serde_json = { version = "1", features = ["arbitrary_precision", "raw_value"] }
thiserror = "2"
tracing = "0.1"
tracing-subscriber = "0.3"
