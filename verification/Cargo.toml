[package]
name = "arm64_linker"
version = "0.1.0"
edition = "2021"
publish = false

[dependencies]
anyhow = "1"
byteorder = "1"
goblin = "0.8"
log = "0.4"
thiserror = "1"
