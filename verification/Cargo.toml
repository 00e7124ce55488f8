[package]
name = "vm_rust"
version = "0.1.0"
edition = "2021"
publish = false

[dependencies]
bitvec = "1"
wasm-bindgen = "0.2"
js-sys = "0.3"
wasm-bindgen-futures = "0.4"
log = "0.4"
