[package]
name = "pari"
version = "0.1.0"
edition = "2021"
publish = false

[dependencies]
clap = { version = "4", features = ["derive"] }
clap_complete = "4"
crc32fast = "1"
memmap2 = "0.9"
pyo3 = { version = "*", features = ["abi3-py310", "extension-module"] }
redb = "*"
redis = "*"
same-file = "1"
serde = { version = "1", features = ["derive"] }
serde_json = "1"
sha1 = "0.10"
