[package]
name = "dp_rss"
version = "0.1.0"
edition = "2021"
publish = false

[dependencies]
chrono = "0.4"
rss = { version = "2", features = ["validation"] }
axum = "0.8"
tokio = { version = "1", features = ["rt-multi-thread", "macros", "net"] }
