[package]
name = "graph_traffic"
version = "0.1.0"
edition = "2021"
publish = false

[dependencies]
petgraph = "0.8"
rand = "0.9"
rand_pcg = "0.9"
rand_distr = "0.5"
num-bigint = "0.4"
num-rational = "0.4"
num-traits = "0.2"
rayon = "1"
serde = { version = "1", features = ["derive"] }
serde_json = "1"
uuid = { version = "1", features = ["v4", "serde"] }
clap = { version = "4", features = ["derive"] }
jsonschema = { version = "0.33", default-features = false }
hdf5-metno = "0.10"
