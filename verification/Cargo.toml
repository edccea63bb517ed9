[package]
name = "resin"
version = "0.1.0"
edition = "2021"
publish = false

[dependencies]
regex = "1"
itertools = "*"
clap = { version = "4", features = ["derive"] }
ndarray = "*"
petgraph = "*"
clingo = "*"
rand = "*"
rand_distr = "*"
