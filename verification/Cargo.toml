[package]
name = "mcsp"
version = "0.1.0"
edition = "2021"
publish = false

[dependencies]
petgraph = "0.6"
clap = { version = "4", features = ["derive"] }
env_logger = "0.10"
log = "0.4"
pest = "2"
pest_derive = "2"
rand = "0.8"
rand_distr = "0.4"
