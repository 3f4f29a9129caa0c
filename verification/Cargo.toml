[package]
name = "markov"
version = "0.1.0"
edition = "2021"
publish = false

[dependencies]
rand = "=0.8.5"
rand_chacha = "=0.3.1"
serde = "1"
serde_derive = "1"
serde_yaml = "*"
petgraph = "*"
getopts = "*"
itertools = "*"
