[package]
name = "wasm_squeeze"
version = "0.1.0"
edition = "2021"
publish = false

[dependencies]
upkr = "*"
anyhow = "*"
clap = { version = "*", features = ["derive"] }
log = "*"
env_logger = "*"

[dev-dependencies]
wasmparser = "*"
wasm-encoder = "*"
