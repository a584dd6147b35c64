[package]
name = "data_container"
version = "0.1.0"
edition = "2021"
publish = false

[dependencies]
futures = "*"
lazy_async_promise = "*"
tokio = { version = "*", features = ["sync", "rt", "rt-multi-thread", "macros", "time"] }
tracing = "*"
uuid = { version = "*", features = ["v4"] }
