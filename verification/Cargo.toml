[package]
name = "mailr_nal"
version = "0.1.0"
edition = "2021"
publish = false

[dependencies]
base64 = "*"
embedded-nal = "*"
