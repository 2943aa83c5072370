[package]
name = "prime_cipher"
version = "0.1.0"
edition = "2021"
publish = false

[dependencies]
sha2 = "0.10"
hkdf = "0.12"
getrandom = "0.2"
num-bigint = "0.4"
