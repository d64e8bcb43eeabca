[package]
name = "fast_kv_store"
version = "0.1.0"
edition = "2021"
publish = false

[dependencies]
blake3 = "1"
bytesize = "1"
clap = { version = "3", features = ["derive"] }
rand = "0.8"
