[package]
name = "mp4"
version = "0.1.0"
edition = "2021"
publish = false

[dependencies]
byteorder = "1"
fixed = "1"
thiserror = "1"
