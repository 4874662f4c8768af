[package]
name = "wesolowski_vdf"
version = "0.1.0"
edition = "2021"
publish = false

[dependencies]
crypto-bigint = "0.5"
ring = "0.17"
