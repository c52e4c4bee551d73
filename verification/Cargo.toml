[package]
name = "linecount"
version = "0.1.0"
edition = "2021"
publish = false

[dependencies]
bytecount = "0.6"
