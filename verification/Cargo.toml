[package]
name = "kernel_std"
version = "0.1.0"
edition = "2021"
publish = false

[dependencies]
uuid = { version = "=1.29.0", features = ["serde"] }
spin = "=0.9.9"
serde = { version = "=1.0.229", features = ["derive"] }
corepack = "=0.4.1"
elf = "=0.8.0"
