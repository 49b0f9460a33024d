[package]
name = "ghostnote"
version = "0.1.0"
edition = "2021"
publish = false

[dependencies]
aes-gcm = "0.10"
argon2 = "0.5"
base64 = "0.22"
chrono = "0.4"
rand = "0.8"
walkdir = "2"
zeroize = "1"
