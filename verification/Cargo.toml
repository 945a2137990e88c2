[package]
name = "mnemonic_shares"
version = "0.1.0"
edition = "2021"
publish = false

[dependencies]
bip39 = "2"
clap = { version = "3", features = ["derive"] }
rand = "0.8"
smallvec = "1"
