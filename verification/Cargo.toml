[package]
name = "cryptoconditions"
version = "0.1.0"
edition = "2021"
publish = false

[dependencies]
simple_asn1 = "0.4"
num-bigint = "0.2"
num-traits = "0.2"
sha2 = "0.8"
libsecp256k1 = "0.3"
hex = "0.4"
base64 = "0.13"
log = "0.4"
wasm-bindgen = "0.2"
js-sys = "0.3"
console_log = "0.2"

[dev-dependencies]
rustc-hex = "2"
