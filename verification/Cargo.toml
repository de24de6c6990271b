[package]
name = "portwatch"
version = "0.1.0"
edition = "2021"
publish = false

[dependencies]
sysinfo = "=0.39.6"
serde = { version = "=1.0.229", features = ["derive"] }
serde_json = "*"
