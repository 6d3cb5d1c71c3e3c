[package]
name = "propaq"
version = "0.1.0"
edition = "2021"
publish = false

[dependencies]
flate2 = "1"
hashbrown = "0.15"
libc = "0.2"
libloading = "0.8"
num-complex = "0.4"
pyo3 = { version = "0.26", features = ["abi3-py310"] }
rayon = "1"
rustc-hash = "2"
smallvec = "1"
