[package]
name = "big_integer"
version = "0.1.0"
edition = "2021"
publish = false

[dev-dependencies]
num-bigint = { version = "0.4", features = ["rand"] }
rand = "0.8"
