[package]
name = "oxideav-hdr"
version = "0.0.4"
edition = "2021"
publish = false

[dependencies]
oxideav-core = "*"
