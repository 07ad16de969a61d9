[package]
name = "scalable_bloom_filter"
version = "0.1.0"
edition = "2021"

[dependencies]
siphasher = "*"
