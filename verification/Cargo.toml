[package]
name = "rustywind"
version = "0.1.0"
edition = "2021"
publish = false

[dependencies]
ahash = "0.8"
aho-corasick = "1"
bumpalo = { version = "3", features = ["collections"] }
clap = { version = "4", features = ["derive"] }
color-eyre = "0.6"
colored = "*"
crossbeam = "0.8"
env_logger = "*"
eyre = "0.6"
ignore = "0.4"
indoc = "2"
itertools = "*"
log = "0.4"
num_cpus = "1"
once_cell = "1"
rayon = "1"
regex = "1"
serde = { version = "1", features = ["derive"] }
serde_json = "1"
ureq = "3"
