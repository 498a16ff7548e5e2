[package]
name = "sbpf_coverage"
version = "0.1.0"
edition = "2021"
publish = false

[dependencies]
addr2line = "*"
anyhow = "1"
byteorder = "1"
clap = { version = "4", features = ["derive"] }
hex = "*"
object = "*"
sha2 = "*"
solana-sbpf = "*"
