[package]
name = "spacesuit"
version = "0.1.0"
edition = "2021"
publish = false

[dependencies]
bulletproofs = { version = "=4.0.0", default-features = false, features = ["std", "yoloproofs"] }
curve25519-dalek-ng = "4"
merlin = "=3.0.0"
rand = "=0.8.8"
subtle = "=2.6.1"
