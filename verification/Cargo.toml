[package]
name = "rust_2048_solver"
version = "0.1.0"
edition = "2021"
publish = false

[dependencies]
rand = "0.8"
itertools = "0.12"
lru = "0.12"
num = "0.4"
thiserror = "1"
log = "0.4"
env_logger = "0.11"
ctrlc = "3"
lazy_static = "1"
