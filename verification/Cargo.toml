[package]
name = "fuz"
version = "0.1.0"
edition = "2021"
publish = false

[dependencies]
ignore = "0.4"
libc = "0.2"
memchr = "2"
mimalloc = { version = "0.1", default-features = false }
