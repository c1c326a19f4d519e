[package]
name = "keywich_lib"
version = "0.1.0"
edition = "2021"
publish = false

[dependencies]
scrypt = "*"
hmac = "*"
sha2 = "*"
zip = "*"
base64 = "*"
qrcode = "*"
