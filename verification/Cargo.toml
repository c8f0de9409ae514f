[package]
name = "kzg"
version = "0.1.0"
edition = "2021"
publish = false

[dependencies]
bls12_381 = "*"
num-bigint = "=0.4.8"
rand = "=0.8.8"
