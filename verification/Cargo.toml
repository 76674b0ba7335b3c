[package]
name = "cachebox"
version = "0.1.0"
edition = "2021"
publish = false

[dependencies]
fastrand = "2"
parking_lot = "0.12"
pyo3 = "0.20"
