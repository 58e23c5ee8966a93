[package]
name = "csilctl"
version = "0.1.0"
edition = "2021"
publish = false

[dependencies]
anyhow = "*"
ciborium = "*"
clap = { version = "*", features = ["derive"] }
regex = "*"
serde_json = "*"
js-sys = "*"
wasm-bindgen = "*"
console_error_panic_hook = "*"

[dev-dependencies]
tempfile = "*"
