[package]
name = "cfb_directory"
version = "0.1.0"
edition = "2021"

[dependencies]
byteorder = "1"
uuid = "1"
