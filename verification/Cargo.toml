[package]
name = "mergex"
version = "0.1.0"
edition = "2021"
publish = false

[dependencies]
loom = "0.7"

[lints.rust]
unexpected_cfgs = { level = "warn", check-cfg = ['cfg(loom)'] }
