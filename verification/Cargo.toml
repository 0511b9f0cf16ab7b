[package]
name = "biodivine_algo_bdd_scc"
version = "0.1.0"
edition = "2021"
publish = false

[dependencies]
biodivine-lib-param-bn = "*"
cancel-this = "*"
computation-process = "*"
num-bigint = "*"
log = "*"
env_logger = "*"
clap = { version = "*", features = ["derive"] }
