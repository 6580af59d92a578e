[package]
name = "chronos"
version = "0.1.0"
edition = "2021"
publish = false

[dependencies]
blake3 = { version = "1", features = ["pure"] }
crossbeam = "0.8"
io-uring = "0.6"
libc = "0.2"
thiserror = "1"
