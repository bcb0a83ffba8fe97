[package]
name = "hashlife_fast"
version = "0.1.0"
edition = "2021"
publish = false

[dependencies]
metrohash = "1.0"
png = "0.17"
wasm-bindgen = "0.2"
