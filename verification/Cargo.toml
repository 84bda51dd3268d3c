[package]
name = "db4nfv"
version = "0.1.0"
edition = "2021"
publish = false

[dependencies]
affinity = "*"
core_affinity = "*"
ctrlc = "3"
cxx = "1"
fast_log = "*"
lazy_static = "1"
once_cell = "1"
rayon = "1"
serde = { version = "1", features = ["derive"] }
serde_json = "1"
structopt = "0.3"
