[package]
name = "exedra_exact"
version = "0.1.0"
edition = "2021"
publish = false

[dependencies]
joto_constants = "*"
hashbrown = "*"
libm = "*"
