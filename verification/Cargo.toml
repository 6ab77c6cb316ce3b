[package]
name = "alloc_cortex_m"
version = "0.1.0"
edition = "2021"
publish = false

[dependencies]
cortex-m = "*"
