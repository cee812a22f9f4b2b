[package]
name = "playsync"
version = "0.1.0"
edition = "2021"
publish = false

[dependencies]
rand = "0.8"
websocket = { version = "0.27", default-features = false, features = ["sync"] }
dns-lookup = "2"
once_cell = "1"
serde = { version = "1", features = ["derive"] }
serde_json = "1"
