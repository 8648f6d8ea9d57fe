[package]
name = "htree"
version = "0.1.0"
edition = "2021"
publish = false

[dependencies]
bytebuffer = "0.2"
futures = "0.1"
rand = "0.3"
time = "0.1"
typed-arena = "1"
rustc-serialize = "0.3"
