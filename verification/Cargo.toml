[package]
name = "hit_and_blow"
version = "0.1.0"
edition = "2021"
publish = false

[dependencies]
hashbrown = "*"
itertools = "*"
clap = { version = "4", features = ["derive"] }
env_logger = "*"
log = "0.4"
