[package]
name = "mind_flayer"
version = "0.1.0"
edition = "2021"
publish = false

[dependencies]
aes-gcm = "0.10"
base64 = "0.22"
sha2 = "0.10"
whoami = "1"
dirs = "5"
