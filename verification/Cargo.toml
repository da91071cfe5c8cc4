[package]
name = "cmpe524_network_designer"
version = "0.1.0"
edition = "2021"
publish = false

[dependencies]
petgraph = "0.6"
rand = "0.8"
rand_distr = "0.4"
serde = { version = "1", features = ["derive"] }
serde_json = "1"
toml = "0.8"
good_lp = { version = "~1.8", default-features = false, features = ["minilp"] }
