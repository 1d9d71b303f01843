[package]
name = "dif_core"
version = "0.1.0"
edition = "2021"
publish = false

[dependencies]
miniz_oxide = "=0.8.9"
lz4_flex = "=0.11.6"
brotli = "=8.0.4"
zstd-safe = { version = "=7.4.0", features = ["zstdmt"] }
palette = "=0.7.7"
rustc-hash = "=2.1.3"
wasm-bindgen = "=0.2.130"
