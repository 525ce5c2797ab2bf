[package]
name = "pubgrub_debian"
version = "0.1.0"
edition = "2021"
publish = false

[dependencies]
pubgrub = "*"
