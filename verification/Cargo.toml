[package]
name = "cargo-crev"
version = "0.1.0"
edition = "2021"
publish = false

[dependencies]
petgraph = "0.4"
semver = "0.9"
cargo-platform = "0.1"
cargo = "0.38"
failure = "0.1"
term = "0.5"
structopt = "0.2"
