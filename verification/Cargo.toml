[package]
name = "rafty"
version = "0.1.0"
edition = "2021"
publish = false

[dependencies]
rand = "0.10"
prost = "*"
serde = { version = "1", features = ["derive"] }
serde_json = "1"
smol = "*"
async-channel = "*"
async-net = "*"
async-h1 = "2"
http-types = "2"
thiserror = "*"
tracing = "0.1"
tracing-subscriber = "0.3"
wasm-bindgen = "0.2"
js-sys = "0.3"
web-sys = { version = "0.3", features = ["Window", "Performance"] }
serde-wasm-bindgen = "*"
console_error_panic_hook = "*"
