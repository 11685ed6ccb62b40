[package]
name = "rinha"
version = "0.1.0"
edition = "2021"
publish = false

[dependencies]
memchr = "2"
libc = "0.2"
io-uring = "0.7"
flate2 = "1"
serde = { version = "1", features = ["derive"] }
serde_json = "1"
rayon = "1"
