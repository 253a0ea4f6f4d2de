[package]
name = "silent_payment"
version = "0.1.0"
edition = "2021"
publish = false

[dependencies]
bdk_wallet = { version = "=3.2.0", features = ["keys-bip39"] }
bitcoin_hashes = "=0.14.101"
hex = "=0.4.3"
secp256k1 = { version = "=0.29.1", features = ["rand-std"] }
silentpayments = "=0.6.0"
thiserror = "=2.0.21"
uniffi = "=0.32.2"
