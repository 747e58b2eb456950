[package]
name = "folder_lock"
version = "0.1.0"
edition = "2021"
publish = false

[dependencies]
aes-gcm = { version = "0.10", features = ["stream"] }
argon2 = "0.5"
rand = "0.8"
zeroize = "1"
