[package]
name = "platform_rust"
version = "0.1.0"
edition = "2021"
publish = false

[dependencies]
hex = "*"
uuid = { version = "*", features = ["v4"] }
pyo3 = "*"
tokio = { version = "*", features = ["full"] }
once_cell = "*"
tracing-subscriber = "*"
alloy-consensus = { version = "*", features = ["k256"] }
alloy-rlp = "*"
