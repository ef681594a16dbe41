[package]
name = "copernica"
version = "0.1.0"
edition = "2021"
publish = false

[dependencies]
anyhow = "1"
async-std = "1"
bincode = "1"
bitvec = "1"
clap = "2"
crossbeam-channel = "0.5"
cryptoxide = "*"
dirs = "*"
futures = "0.3"
keynesis = "*"
log = "0.4"
rand = "0.8"
reed-solomon = "0.2"
serde = { version = "1", features = ["derive"] }
serde_json = "1"
sha3 = "0.10"
sled = "0.34"
smol-timeout = "*"
uluru = "3"
