[package]
name = "orderbooklib"
version = "0.1.0"
edition = "2021"
publish = false

[dependencies]
uuid = { version = "*", features = ["v4", "v5", "v7"] }
chrono = "*"
rust_decimal = "*"
