[package]
name = "deduplicator"
version = "0.1.0"
edition = "2021"
publish = false

[dependencies]
ansi-escapes = "=0.2.0"
clap = { version = "=4.6.7", features = ["derive"] }
ctrlc = "=3.5.2"
image = "=0.25.10"
image_hasher = "=3.1.1"
num_cpus = "=1.17.0"
ring = "=0.17.14"
threadpool = "=1.8.1"
walkdir = "=2.5.0"

[dev-dependencies]
itertools = "=0.15.0"
