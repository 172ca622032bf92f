[package]
name = "advanced_subscriber"
version = "0.1.0"
edition = "2021"
publish = false

[dependencies]
zenoh = { version = "*", features = ["unstable"] }
uhlc = "*"
