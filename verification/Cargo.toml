[package]
name = "commit_log"
version = "0.1.0"
edition = "2021"
publish = false

[dependencies]
memmap = "0.7"
rand = "0.7"
dirs = "2"
derive_more = "0.99"

[dev-dependencies]
tempfile = "3"
crc = "1.8"
