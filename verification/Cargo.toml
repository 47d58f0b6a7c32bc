[package]
name = "dexscreen_paid_notifier"
version = "0.1.0"
edition = "2021"
publish = false

[dependencies]
simd-json = "*"
simdutf8 = "0.1"
tokio = { version = "1", features = ["rt-multi-thread", "macros", "sync", "time"] }
reqwest = { version = "0.12", default-features = false, features = ["rustls-tls"] }
http = "1"
chrono = "0.4"
fast_websocket_client = "*"
