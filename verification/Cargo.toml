[package]
name = "isdbt-dsp"
version = "0.1.0"
edition = "2021"
publish = false

[dependencies]
num-complex = "0.4"
rustfft = "6"
wasm-bindgen = "0.2"
