[package]
name = "contexting_core"
version = "0.1.0"
edition = "2021"
publish = false

[dependencies]
regex-syntax = "0.8"
serde_json = "1"
thiserror = "1"
pyo3 = "0.22"
wasm-bindgen = "0.2"
js-sys = "0.3"
