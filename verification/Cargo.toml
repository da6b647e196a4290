[package]
name = "respkv"
version = "0.1.0"
edition = "2021"
publish = false

[dependencies]
anyhow = "*"
bytes = "*"
tokio = { version = "*", features = ["rt-multi-thread", "net", "io-util", "macros", "sync"] }
