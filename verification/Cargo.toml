[package]
name = "rspass"
version = "0.1.0"
edition = "2021"
publish = false

[dependencies]
aes-gcm = "=0.10.3"
argon2 = "=0.5.3"
zeroize = "=1.8.2"
clap = { version = "*", features = ["derive"] }
rpassword = "*"
dirs = "*"
