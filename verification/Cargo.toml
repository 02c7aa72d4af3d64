[package]
name = "tsptw"
version = "0.1.0"
edition = "2021"
publish = false

[dependencies]
bitset-fixed = "=0.1.0"
ddo = "=0.3.12"
num_cpus = "=1.17.0"
structopt = "=0.3.26"
