[package]
name = "mammut_fft_lib"
version = "0.1.0"
edition = "2021"
publish = false

[dependencies]
rand = "0.9"
realfft = "3"
hound = "3"
num-complex = "0.4"
symphonia = "0.5"
rustyline = "*"
log = "0.4"
wasm-bindgen = "0.2"
js-sys = "0.3"
serde = { version = "1", features = ["derive"] }
serde-wasm-bindgen = "0.6"
console_error_panic_hook = "0.1"
