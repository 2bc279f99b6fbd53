[package]
name = "szymczak"
version = "0.1.0"
edition = "2021"
publish = false

[dependencies]
gcd = "=2.3.0"
itertools = "=0.15.0"
nanoid = "=0.4.0"
