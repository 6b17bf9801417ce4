[package]
name = "hash_bench"
version = "0.1.0"
edition = "2021"
publish = false

[dependencies]
bitvec = "1"
murmurhash3 = "*"
num-traits = "0.2"
log = "0.4"
env_logger = "*"
