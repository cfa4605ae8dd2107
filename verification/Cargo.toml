[package]
name = "sakuhiki"
version = "0.1.0"
edition = "2021"
publish = false

[dependencies]
async-lock = "3"
eyre = "0.6"
futures-util = "0.3"
rocksdb = "*"
thiserror = "*"
tokio = { version = "1", features = ["rt-multi-thread"] }
waaa = "*"
