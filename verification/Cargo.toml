[package]
name = "kvs"
version = "0.1.0"
edition = "2021"
publish = false

[dependencies]
clap = { version = "4", features = ["derive"] }
sled = "0.34"
thiserror = "1"
tracing = "0.1"
tracing-subscriber = "0.3"
walkdir = "2"
