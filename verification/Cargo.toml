[package]
name = "woff2_sys"
version = "0.1.0"
edition = "2021"
publish = false

[dependencies]
brotli = "=9.0.0"
cpp = "=0.5.11"
hb-subset = "=0.3.0"
