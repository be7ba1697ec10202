[package]
name = "hekate"
version = "0.1.0"
edition = "2021"
publish = false

[dependencies]
aes = "=0.9.4"
hekate-math = "=0.8.0"
rand = "=0.10.3"
serde = { version = "1", features = ["derive"] }
sha2 = "=0.11.1"
zeroize = "=1.9.1"
