[package]
name = "session_handler"
version = "0.1.0"
edition = "2021"
publish = false

[dependencies]
parity-scale-codec = "3"
sp-runtime = "*"
aleph-bft-types = "*"
aleph-bft-rmc = "*"
async-trait = "0.1"
