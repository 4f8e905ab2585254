[package]
name = "orz"
version = "0.1.0"
edition = "2021"
publish = false

[dependencies]
binary-heap-plus = "=0.5.0"
clap = { version = "=4.5.61", features = ["derive"] }
