[package]
name = "cs140"
version = "0.1.0"
edition = "2021"
publish = false

[dependencies]
crc = "=3.4.0"
bitvec = "=1.0.1"
reed-solomon-erasure = "=6.0.0"
rand = "=0.8.5"
rand_pcg = "0.3"
bincode = { version = "2", features = ["derive"] }
tokio = { version = "1", features = ["full"] }
log = "0.4"
env_logger = "0.9"
async-trait = "0.1"
anyhow = "1"
cpal = "0.13"
hound = "3"
rustfft = "6"
nalgebra = "0.31"
