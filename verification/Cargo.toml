[package]
name = "scrub_rs"
version = "0.1.0"
edition = "2021"
publish = false

[dependencies]
crc32c = "0.6"
xxhash-rust = { version = "0.8", features = ["xxh64"] }
sha2 = "0.10"
blake2 = "0.10"
rayon = "1"
nix = { version = "0.29", features = ["fs", "ioctl", "signal"] }
