[package]
name = "endo"
version = "0.1.0"
edition = "2021"
publish = false

[dependencies]
im = "*"
crossbeam-channel = "*"
structopt = "*"
num-bigint = "*"
num-traits = "*"
serde = { version = "*", features = ["derive"] }
serde_json = "*"
fixedbitset = "*"
