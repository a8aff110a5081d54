[package]
name = "atlas_packer"
version = "0.1.0"
edition = "2021"
publish = false

[dependencies]
cgmath = { version = "=0.18.0", features = ["mint"] }
image = { version = "=0.25.10", default-features = false, features = ["png"] }
mint = "=0.5.9"

[dev-dependencies]
rand = "=0.8.8"
