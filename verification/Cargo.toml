[package]
name = "iggy_core"
version = "0.1.0"
edition = "2021"
publish = false

[dependencies]
bytes = "1"
flume = "0.11"
serde = { version = "1", features = ["derive"] }
tokio = { version = "1", features = ["rt-multi-thread", "time", "net", "macros"] }
tracing = "0.1"
