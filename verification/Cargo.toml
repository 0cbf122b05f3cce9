[package]
name = "sea"
version = "0.1.0"
edition = "2021"
publish = false

[dependencies]
uuid = { version = "*", features = ["v4"] }
irc = "*"
tokio = { version = "*", features = ["full"] }
futures = "*"
