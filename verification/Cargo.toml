[package]
name = "linhash"
version = "0.1.0"
edition = "2021"
publish = false

[dependencies]
rustix = { version = "*", features = ["fs"] }
parking_lot = "*"
lock_api = "*"
crc32fast = "*"
rand = "*"
crossbeam = "*"
clap = { version = "*", features = ["derive"] }
linux-raw-sys = "*"
tempfile = "*"
