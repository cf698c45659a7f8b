[package]
name = "fileperson"
version = "0.1.0"
edition = "2021"
publish = false

[dependencies]
anyhow = "=1.0.104"
camino = { version = "=1.2.6", features = ["serde1"] }
caseless = "=0.2.2"
directories = "=4.0.1"
itertools = "=0.10.5"
log = "=0.4.34"
natord = "=1.0.9"
pretty_env_logger = "=0.4.0"
rayon = "=1.12.0"
rodio = "=0.17.3"
serde = { version = "=1.0.229", features = ["derive"] }
thiserror = "=1.0.69"
walkdir = "=2.5.0"
