[package]
name = "devimage"
version = "0.1.0"
edition = "2021"
publish = false

[dependencies]
aligned-vec = "0.6"
anyhow = "1"
blake3 = { version = "1", features = ["pure"] }
clap = { version = "4", features = ["derive"] }
futures = "0.3"
indicatif = "0.17"
libc = "0.2"
log = "0.4"
lz4 = "1"
num_cpus = "1"
parse-size = "1"
sha2 = "0.10"
simplelog = "0.12"
tokio-uring = "0.5"
xxhash-rust = { version = "0.8", features = ["xxh3"] }
