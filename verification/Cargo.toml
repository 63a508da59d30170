[package]
name = "order_book"
version = "0.1.0"
edition = "2021"
publish = false

[dependencies]
axum = "*"
crossbeam-channel = "*"
serde = { version = "*", features = ["derive"] }
serde_json = "*"
tokio = { version = "*", features = ["rt-multi-thread", "macros", "net"] }
