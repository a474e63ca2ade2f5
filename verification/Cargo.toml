[package]
name = "pin_tracker"
version = "0.1.0"
edition = "2021"
publish = false

[dependencies]
chrono = "*"
yaml-rust = "*"
mosquitto-client = "*"
