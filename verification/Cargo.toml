[package]
name = "machine_check"
version = "0.1.0"
edition = "2021"
publish = false

[dependencies]
bitvec = "1"
intern-arc = "0.6"
itertools = "0.10"
petgraph = "0.6"
serde = { version = "1", features = ["derive"] }
serde_json = "1"
wasm-bindgen = "0.2"
