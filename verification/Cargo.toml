[package]
name = "bstseal"
version = "0.1.0"
edition = "2021"
publish = false

[dependencies]
anyhow = "1"
base64 = "0.22"
blake3 = { version = "1", features = ["pure"] }
byteorder = "1"
chrono = "0.4"
clap = { version = "4", features = ["derive"] }
dirs = "5"
hmac = "0.12"
libc = "0.2"
once_cell = "1"
rayon = "1"
sha2 = "0.10"
thiserror = "1"
walkdir = "2"

[dev-dependencies]
rand = "0.8"
