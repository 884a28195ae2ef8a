[package]
name = "shenyu"
version = "0.1.0"
edition = "2021"
publish = false

[dependencies]
rand = "0.8"
crossbeam = "0.8"
colored = "2"
chrono = "0.4"
