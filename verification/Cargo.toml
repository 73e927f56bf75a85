[package]
name = "pallet_subspace"
version = "0.1.0"
edition = "2021"
publish = false

[dependencies]
substrate-fixed = "0.5"
