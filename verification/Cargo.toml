[package]
name = "srt_adjust"
version = "0.1.0"
edition = "2021"
publish = false

[dependencies]
anyhow = "1"
encoding_rs_io = "0.1"
env_logger = "*"
log = "*"
structopt = "0.3"
