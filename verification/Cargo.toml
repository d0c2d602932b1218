[package]
name = "pvss_evoting"
version = "0.1.0"
edition = "2021"
publish = false

[dependencies]
blake3 = "1"
curve25519-dalek = "4"
num-bigint = "0.4"
rand = "0.9"
rand_chacha = "0.9"
rayon = "1"
zeroize = "1"
