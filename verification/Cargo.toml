[package]
name = "rainbow"
version = "0.1.0"
edition = "2021"
publish = false

[dependencies]
ring = "*"
data-encoding = "*"
crossbeam = "*"
crossbeam-channel = "*"
num_cpus = "*"
structopt = "*"
