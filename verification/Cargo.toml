[package]
name = "sovereign_core"
version = "0.1.0"
edition = "2021"
publish = false

[dependencies]
solana-sdk = "=2.3.1"
uniffi = "=0.32.2"
getrandom = "=0.2.17"
zeroize = "=1.3.0"
