[package]
name = "sarena"
version = "0.1.0"
edition = "2021"
publish = false

[dependencies]
rand = "=0.9.5"
ipnet = "=2.12.2"
regex = "=1.13.1"
serde_json = "=1.0.154"
tokio = { version = "1", features = ["sync"] }
