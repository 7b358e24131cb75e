[package]
name = "miniredis"
version = "0.1.0"
edition = "2021"
publish = false

[dependencies]
hex = "*"
tokio = { version = "*", features = ["full"] }
getopts = "*"
