[package]
name = "wiredock"
version = "0.1.0"
edition = "2021"
publish = false

[dependencies]
tokio = { version = "1", features = ["rt-multi-thread", "macros", "net", "io-util", "sync", "signal", "time"] }
reedline = { version = "*", features = ["external_printer"] }
thiserror = "2"
