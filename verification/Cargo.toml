[package]
name = "set_accumulator"
version = "0.1.0"
edition = "2021"
publish = false

[dependencies]
num-bigint = { version = "=0.4.8", features = ["rand"] }
num-traits = "=0.2.19"
rand = "=0.8.8"
crypto-hash = "=0.3.4"
