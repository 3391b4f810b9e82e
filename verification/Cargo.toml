[package]
name = "postcode_index"
version = "0.1.0"
edition = "2021"
publish = false

[dependencies]
brotli = { version = "=9.0.0", features = ["portable-float"] }
fst = "=0.4.7"
napi = "=2.16.17"
napi-derive = "=2.16.13"
