[package]
name = "road_bundler"
version = "0.1.0"
edition = "2021"
publish = false

[dependencies]
anyhow = "1"
console_error_panic_hook = "0.1"
console_log = "1"
geo = "=0.31.0"
geojson = "=0.24.2"
itertools = "=0.14.0"
log = "0.4"
rstar = "=0.12.2"
serde = { version = "1", features = ["derive"] }
serde_json = "1"
wasm-bindgen = "0.2"
