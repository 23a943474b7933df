[package]
name = "drackpad"
version = "0.1.0"
edition = "2021"
publish = false

[dependencies]
anyhow = "=1.0.104"
image = { version = "=0.25.10", default-features = false }
ndarray = "*"
opencv = "=0.101.1"
ort = { version = "=2.0.0-rc.15", default-features = false, features = ["load-dynamic", "ndarray"] }
