[package]
name = "bgzf_rust_reader"
version = "0.1.0"
edition = "2021"
publish = false

[dependencies]
libdeflater = "*"
positioned-io = "*"
