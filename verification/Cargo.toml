[package]
name = "timelock"
version = "0.1.0"
edition = "2021"
publish = false

[dependencies]
hex = "0.4"
radix_fmt = "1"
rust-crypto = "0.2"
rsa = "0.9"
rand = "0.8"
rand_chacha = "0.3"
rand_core = { version = "0.6", features = ["getrandom"] }
uuid = { version = "1", features = ["v4"] }
clap = { version = "4", features = ["derive"] }
ctrlc = "3"
linreg = "0.2"
timeago = "0.4"
