[package]
name = "discovery-telemetry"
version = "0.2.0"
edition = "2021"
publish = false

[dependencies]
cobs = { version = "=0.3.0", default-features = false }
postcard = { version = "=1.1.3", default-features = false }
serde = { version = "=1.0.229", default-features = false, features = ["derive"] }
serde-big-array = "=0.5.1"
