[package]
name = "lazy_field"
version = "0.1.0"
edition = "2021"
publish = false

[dependencies]
ark-ff = "=0.6.0"
ark-std = "=0.6.0"
