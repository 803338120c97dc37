[package]
name = "time_back"
version = "0.1.0"
edition = "2021"
publish = false

[dependencies]
dashmap = "*"
chrono = "0.4"
serde = { version = "1", features = ["derive"] }
confy = "*"
device_query = "*"
active-win-pos-rs = "*"
humantime = "*"
