[package]
name = "swiss_cheese"
version = "0.1.0"
edition = "2021"
publish = false

[dependencies]
rand = "*"
rayon = "*"
ndarray = "*"
ndarray-stats = "*"
numpy = "*"
pyo3 = "*"
