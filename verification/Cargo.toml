[package]
name = "rhizome"
version = "0.1.0"
edition = "2021"
publish = false

[dependencies]
petgraph = "0.6"
cid = "0.11"
anyhow = "1"
pretty = "*"
wasm-bindgen = "0.2"
js-sys = "0.3"
serde-wasm-bindgen = "*"
wasm-bindgen-downcast = "*"
