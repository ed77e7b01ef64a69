[package]
name = "bposit_calc"
version = "0.1.0"
edition = "2021"
publish = false

[dependencies]
fast-posit = "*"
wasm-bindgen = "*"
