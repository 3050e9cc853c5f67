[package]
name = "van_world"
version = "0.1.0"
edition = "2021"
publish = false

[dependencies]
env_logger = "*"
meganeura = "*"
rand = "0.8"
rand_distr = "0.4"
