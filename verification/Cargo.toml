[package]
name = "bin_packer_3d"
version = "0.1.0"
edition = "2021"
publish = false

[dependencies]
thiserror = "1"
