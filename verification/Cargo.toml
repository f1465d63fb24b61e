[package]
name = "transport_validator"
version = "0.1.0"
edition = "2021"
publish = false

[dependencies]
gtfs-structures = { version = "*", default-features = false }
geo = "*"
rayon = "*"
