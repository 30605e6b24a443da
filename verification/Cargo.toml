[package]
name = "tmexclude"
version = "0.1.0"
edition = "2021"
publish = false

[dependencies]
xattr = "=1.6.1"
moka = { version = "=0.12.16", features = ["sync"] }
shellexpand = "=3.1.2"
serde = { version = "=1.0.229", features = ["derive"] }
serde_yaml = "=0.9.34"
clap = { version = "=4.6.7", features = ["derive"] }
notify = "=8.2.0"
jwalk = "=0.9.0"
libc = "=0.2.190"
directories = "=6.0.0"
arc-swap = "=1.9.2"
parking_lot = "=0.12.5"
