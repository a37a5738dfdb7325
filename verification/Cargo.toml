[package]
name = "just_interval_finder"
version = "0.1.0"
edition = "2021"
publish = false

[dependencies]
find_peaks = "0.1"
rustfft = "6"
wasm-bindgen = "0.2"
js-sys = "0.3"
