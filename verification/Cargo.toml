[package]
name = "matchtop"
version = "0.1.0"
edition = "2021"
publish = false

[dependencies]
regex = "1"
bounded-vec-deque = "*"
clap = { version = "4", features = ["derive"] }
anyhow = "1"
