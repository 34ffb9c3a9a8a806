[package]
name = "cloud_p2p"
version = "0.1.0"
edition = "2021"
publish = false

[dependencies]
base64 = "=0.21.7"
steganography = "=1.0.2"
image = "=0.21.3"
async-std = "=1.13.2"
tokio = { version = "=1.54.1", features = ["time", "macros", "rt-multi-thread"] }
lazy_static = "=1.5.1"
once_cell = "=1.21.4"
sysinfo = "=0.29.11"
show-image = "=0.13.1"
