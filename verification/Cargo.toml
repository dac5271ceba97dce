[package]
name = "o3jc"
version = "0.1.0"
edition = "2021"
publish = false

[dependencies]
dashmap = "6"
parking_lot = "0.12"
sharded_mutex = "*"
smallvec = "1"
