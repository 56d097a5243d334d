[package]
name = "ffs"
version = "0.1.0"
edition = "2021"
publish = false

[dependencies]
fuser = { version = "0.8", default-features = false }
libc = "0.2"
serde_json = "1"
