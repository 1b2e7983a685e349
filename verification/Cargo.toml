[package]
name = "horner_solver"
version = "0.1.0"
edition = "2021"
publish = false

[dependencies]
gcd = "2"
num = "0.4"
