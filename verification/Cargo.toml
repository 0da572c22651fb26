[package]
name = "mu"
version = "0.1.0"
edition = "2021"
publish = false

[dependencies]
toml = "0.1"
docopt = "0.6"
rustc-serialize = "0.3"
log = "0.3"
env_logger = "0.3"
