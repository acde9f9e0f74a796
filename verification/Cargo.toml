[package]
name = "message_router"
version = "0.1.0"
edition = "2021"
publish = false

[dependencies]
bytes = "1"
futures = "0.3"
futures-concurrency = "7"
rand = "0.9"
tokio = { version = "1", features = ["io-util", "macros", "net", "rt-multi-thread", "sync"] }
