[package]
name = "mangle"
version = "0.1.0"
edition = "2021"
publish = false

[dependencies]
anyhow = "1"
arrow-array = "*"
arrow-cast = "*"
arrow-schema = "*"
fxhash = "0.2"
log = "0.4"
postcard = { version = "1", default-features = false, features = ["alloc"] }
redb = "*"
rustc-hash = "2"
serde = { version = "1", features = ["derive"] }
serde_json = "1"
sha2 = "0.10"
tokio = { version = "1", features = ["rt", "rt-multi-thread"] }
url = "2"
wasm-encoder = "*"

[dev-dependencies]
tempfile = "3"
wasmparser = "*"
