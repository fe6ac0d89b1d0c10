[package]
name = "storage"
version = "0.1.0"
edition = "2021"
publish = false

[dependencies]
heapless = { version = "0.7", features = ["ufmt-impl"] }
embassy-futures = "0.1"
ufmt = "0.2"
log = "0.4"
