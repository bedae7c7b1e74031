[package]
name = "value"
version = "0.1.0"
edition = "2021"
publish = false

[dependencies]
bytes = "=1.12.1"
chrono = "=0.4.45"
serde = "1"
serde_json = "=1.0.151"
mlua = { version = "=0.12.2", features = ["lua54", "vendored"] }
regex = "=1.13.1"
