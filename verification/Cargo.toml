[package]
name = "qutub_transpiler"
version = "0.1.0"
edition = "2021"
publish = false

[dependencies]
sirraya-qutub = "0.1.13"

[dev-dependencies]
rand = "0.8"
