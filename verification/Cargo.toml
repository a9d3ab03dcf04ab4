[package]
name = "scc"
version = "0.1.0"
edition = "2021"
publish = false

[dependencies]
crossbeam-epoch = "0.9"
scopeguard = "1"
