[package]
name = "lzma_core"
version = "0.1.0"
edition = "2021"
publish = false

[dependencies]
crc = "3"
sha2 = "0.10"
liblzma = "0.4"
