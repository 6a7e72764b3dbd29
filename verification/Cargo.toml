[package]
name = "rust_stuff"
version = "0.1.0"
edition = "2021"
publish = false

[dependencies]
rand = "0.8"
mio = { version = "1", features = ["os-poll", "net"] }
