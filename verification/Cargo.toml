[package]
name = "replog"
version = "0.1.0"
edition = "2021"
publish = false

[dependencies]
crc32fast = "1"
libc = "0.2"
rdkafka = "*"
thiserror = "1"
tokio = { version = "1", features = ["full"] }
