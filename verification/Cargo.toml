[package]
name = "depot"
version = "0.1.0"
edition = "2021"
publish = false

[dependencies]
flate2 = "1"
memmap = "0.7"
sha1 = "0.10"
similar = "2"
