[package]
name = "gtfs_viz"
version = "0.1.0"
edition = "2021"
publish = false

[dependencies]
csv = "1"
gtfs-structures = { version = "0.34", default-features = false }
nannou = "0.18"
rand = "0.8"
rodio = { version = "0.17", default-features = false }
