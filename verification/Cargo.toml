[package]
name = "icap_parser"
version = "0.1.0"
edition = "2021"
publish = false

[dependencies]
bytes = "=1.12.1"
hex = "0.4"
mime = "=0.3.17"
serde = { version = "=1.0.229", features = ["derive"] }
serde_json = "=1.0.151"
sha2 = "0.10"
tokio = { version = "=1.53.2", features = ["io-util", "time", "macros", "rt"] }
