[package]
name = "trace_constraints"
version = "0.1.0"
edition = "2021"
publish = false

[dependencies]
halo2curves = "=0.10.0"
