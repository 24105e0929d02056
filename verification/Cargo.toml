[package]
name = "rgbstd"
version = "0.1.0"
edition = "2021"
publish = false

[dependencies]
commit_verify = "=0.12.1"
baid64 = "=0.4.2"
