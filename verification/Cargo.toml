[package]
name = "r_auth"
version = "0.1.0"
edition = "2021"
publish = false

[dependencies]
age = "0.10"
base32 = "*"
clap = { version = "4", features = ["derive"] }
crossterm = "*"
dirs = "*"
hmac = "0.12"
keyring = { version = "3", default-features = false }
qr2term = "*"
rand = "0.8"
secrecy = "0.8"
sha1 = "0.10"
url = "2"
