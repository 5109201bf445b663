[package]
name = "client_core"
version = "0.1.0"
edition = "2021"
publish = false

[dependencies]
anyhow = "*"
bytes = "*"
quinn = "*"
tokio = { version = "*", features = ["rt-multi-thread", "net", "time", "macros", "io-util", "sync"] }
