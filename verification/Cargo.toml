[package]
name = "lake"
version = "0.1.0"
edition = "2021"
publish = false

[dependencies]
daggy = "0.8"
hcl-rs = "0.19"
