[package]
name = "voice_activity_detector"
version = "0.1.0"
edition = "2021"
publish = false

[dependencies]
ort = { version = "=2.0.0-rc.13", default-features = false, features = ["std", "ndarray"] }
ndarray = "0.17"
futures = "0.3"
pin-project = "1"
thiserror = "2"
