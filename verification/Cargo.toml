[package]
name = "server_index"
version = "0.1.0"
edition = "2021"
publish = false

[dependencies]
integer-encoding = "*"
parking_lot = { version = "*", features = ["deadlock_detection"] }
tokio = { version = "*", features = ["rt-multi-thread", "net", "io-util", "fs", "macros"] }
uuid = "*"
