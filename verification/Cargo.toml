[package]
name = "wasm_source_map"
version = "0.1.0"
edition = "2021"
publish = false

[dependencies]
gimli = { version = "=0.32.3", default-features = false, features = ["read", "std"] }
indexmap = "=1.9.3"
failure = "=0.1.8"
once_cell = "=1.21.4"
js-sys = "=0.3.106"
wasm-bindgen = "=0.2.129"
