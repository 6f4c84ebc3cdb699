[package]
name = "pinenut_log"
version = "0.1.0"
edition = "2021"
publish = false

[dependencies]
aes = "0.8"
cipher = "0.4"
zstd-safe = "7"
p256 = { version = "0.13", features = ["ecdh"] }
rand_core = { version = "0.6", features = ["getrandom"] }
chrono = "0.4"
base64 = "0.22"
libc = "0.2"
clap = { version = "4", features = ["derive"] }
