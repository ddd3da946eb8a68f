[package]
name = "kdbx4"
version = "0.1.0"
edition = "2021"
publish = false

[dependencies]
aes = "=0.8.4"
argon2 = { version = "=0.5.3", default-features = false, features = ["alloc"] }
base64 = "0.22"
cbc = { version = "=0.1.2", features = ["alloc"] }
chacha20 = "=0.9.1"
chrono = { version = "=0.4.45", default-features = false, features = ["std"] }
cipher = { version = "=0.4.4", features = ["alloc", "block-padding"] }
flate2 = "=1.1.10"
getrandom = "=0.2.17"
hmac = "=0.12.1"
salsa20 = "=0.10.2"
sha2 = "=0.10.9"
twofish = "=0.7.1"
