[package]
name = "nubls"
version = "0.1.0"
edition = "2021"
publish = false

[dependencies]
bls12_381 = "0.8"
getrandom = "0.2"
sha2 = "0.10"
pyo3 = "0.20"
