[package]
name = "ruvector"
version = "0.1.0"
edition = "2021"
publish = false

[dependencies]
bincode = "2"
blake3 = "=1.8.7"
rand = "=0.8.8"
rand_distr = "=0.4.3"
rayon = "=1.12.0"
serde_json = "=1.0.154"
memmap2 = "=0.9.12"
spin = "=0.9.9"
thiserror = "=1.0.69"
simsimd = "=6.5.16"
lattice-embed = { version = "=0.7.2", default-features = false }
