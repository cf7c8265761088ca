[package]
name = "benchmark"
version = "0.1.0"
edition = "2021"
publish = false

[dependencies]
chrono = "=0.4.45"
clap = { version = "=3.2.25", features = ["derive"] }
csv = "=1.4.0"
env_logger = "=0.9.3"
itertools = "=0.15.0"
log = "=0.4.35"
poloto = "=15.2.0"
serde = { version = "=1.0.229", features = ["derive"] }
serde_derive = "=1.0.229"
tagger = "=4.3.5"
thiserror = "=1.0.69"
