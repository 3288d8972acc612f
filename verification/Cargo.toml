[package]
name = "cmvbt"
version = "0.1.0"
edition = "2021"
publish = false

[dependencies]
rand = "=0.10.3"
num_cpus = "=1.17.0"
serde = { version = "=1.0.229", features = ["derive"] }
chrono = "=0.4.45"
rand_distr = "=0.6.0"
crossbeam-skiplist = "=0.1.3"
dashmap = "*"
