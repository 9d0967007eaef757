[package]
name = "asset_packer"
version = "0.1.0"
edition = "2021"
publish = false

[dependencies]
anyhow = "1"
png = "0.16"
rgb = "0.8"
