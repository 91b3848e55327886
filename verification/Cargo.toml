[package]
name = "chunkcrypt"
version = "0.1.0"
edition = "2021"
publish = false

[dependencies]
aes-gcm = "0.10"
base64 = "0.13"
rand = "0.8"
