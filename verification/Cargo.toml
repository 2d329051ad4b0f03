[package]
name = "packed_index_set"
version = "0.1.0"
edition = "2021"
publish = false

[dev-dependencies]
fastrand = "2"
