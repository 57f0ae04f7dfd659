[package]
name = "dove"
version = "0.1.1"
edition = "2021"
publish = false

[dependencies]
chrono = "0.4"
colour = "*"
wasm-bindgen = "0.2"
js-sys = "0.3"
