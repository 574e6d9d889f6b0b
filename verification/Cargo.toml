[package]
name = "trash"
version = "0.1.0"
edition = "2021"
publish = false

[dependencies]
regex = "1"
uuid = { version = "1", features = ["v4"] }
chrono = "0.4"
clap = "*"
console = "*"
dirs = "*"

[dev-dependencies]
serde_json = "1"
