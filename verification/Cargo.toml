[package]
name = "shardik"
version = "0.1.0"
edition = "2021"
publish = false

[dependencies]
crossbeam-queue = "*"
futures = "*"
rand = "*"
rand_distr = "*"
csv = "*"
serde = { version = "*", features = ["derive"] }
log = "*"
env_logger = "*"
fs2 = "*"
structopt = "*"
lazy_static = "*"
