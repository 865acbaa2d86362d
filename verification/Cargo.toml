[package]
name = "actuator"
version = "0.1.0"
edition = "2021"
publish = false

[dependencies]
chrono = "*"
chrono-tz = { version = "*", features = ["case-insensitive"] }
rppal = "*"
thiserror = "*"
