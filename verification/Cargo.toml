[package]
name = "nmuidi"
version = "0.1.0"
edition = "2021"
publish = false

[dependencies]
itertools = "*"
jwalk = "*"
log = "*"
num_cpus = "*"
pretty_env_logger = "*"
