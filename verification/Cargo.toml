[package]
name = "mqom"
version = "0.1.0"
edition = "2021"
publish = false

[dependencies]
aes = "=0.9.4"
sha3 = "=0.11.0"
subtle = "=2.6.1"
zeroize = "=1.9.1"
signature = { version = "=3.0.0", features = ["rand_core"] }
rand_core = "=0.10.1"
