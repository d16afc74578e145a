[package]
name = "speedy_http"
version = "0.1.0"
edition = "2021"
publish = false

[dependencies]
bytes = "1"
http = "0.2"
tokio = { version = "1", features = ["io-util", "net", "rt", "macros", "time"] }
futures = "0.3"
tracing = "0.1"
hyper = { version = "0.14", features = ["client", "http1"] }
