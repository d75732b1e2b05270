[package]
name = "reasonable"
version = "0.3.0"
edition = "2021"
publish = false

[dependencies]
datafrog = "2"
disjoint-sets = "0.4"
farmhash = "1"
oxrdf = "0.2"
rio_api = "0.8"
rio_turtle = "0.8"
clap = { version = "4", features = ["derive"] }
env_logger = "0.11"
log = "0.4"
thiserror = "1"
