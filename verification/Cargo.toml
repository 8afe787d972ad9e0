[package]
name = "p384_scalar"
version = "0.1.0"
edition = "2021"
publish = false

[dependencies]
elliptic-curve = { version = "0.12", default-features = false, features = ["arithmetic", "bits"] }
fiat-crypto = { version = "0.1", default-features = false }
