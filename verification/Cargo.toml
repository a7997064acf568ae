[package]
name = "rinha_fraud"
version = "0.1.0"
edition = "2021"

[dependencies]
libc = "0.2"
memmap2 = "0.9"
mimalloc = "0.1"
