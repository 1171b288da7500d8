[package]
name = "trgfa"
version = "0.1.0"
edition = "2021"
publish = false

[dependencies]
anyhow = "1"
csv = "1"
env_logger = "0.7"
log = "0.4"
niffler = "2"
petgraph = "0.5"
structopt = "0.3"
thiserror = "1"
