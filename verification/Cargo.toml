[package]
name = "whiteboard_core"
version = "0.1.0"
edition = "2021"
publish = false

[dependencies]
uuid = { version = "*", features = ["v4"] }
serde = { version = "*", features = ["derive"] }
serde_json = "*"
quick-xml = "*"
image = "*"
base64 = "*"
flate2 = "*"
