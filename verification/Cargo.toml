[package]
name = "symcc_fuzzing_helper"
version = "0.1.0"
edition = "2021"
publish = false

[dependencies]
anyhow = "1"
bytes = "1"
clap = { version = "3", features = ["derive"] }
env_logger = "0.9"
itertools = "0.10"
log = "0.4"
regex = "1"
tempfile = "3"
