[package]
name = "egrph"
version = "0.1.0"
edition = "2021"
publish = false

[dependencies]
regex = "=1.13.1"
csv = "=1.4.0"
chrono = { version = "=0.4.45", default-features = false, features = ["std", "clock"] }
serde = { version = "=1.0.229", features = ["derive"] }
serde_json = "=1.0.154"
clap = { version = "=4.6.7", features = ["derive"] }
rustyline = "=19.0.0"
sled = "=0.34.7"
bincode = "=1.3.3"
wasm-bindgen = "=0.2.130"
console_error_panic_hook = "0.1"
pyo3 = "*"
