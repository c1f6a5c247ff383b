[package]
name = "shared_mempool"
version = "0.1.0"
edition = "2021"
publish = false
