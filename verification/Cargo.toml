[package]
name = "static_opti"
version = "0.1.0"
edition = "2021"
publish = false

[dependencies]
base64 = "0.13"
bincode = "1.3"
brotli = "3.3"
clap = { version = "3.2", features = ["derive"] }
crossbeam = "0.8"
hashbrown = "0.12"
libdeflater = "*"
memmap2 = "0.5"
mimalloc = { version = "0.1", default-features = false }
serde = { version = "1", features = ["derive"] }
serde_json = "1"
tempfile = "3"
xxhash-rust = { version = "0.8", features = ["xxh3"] }
