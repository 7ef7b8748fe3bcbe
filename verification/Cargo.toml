[package]
name = "bfiles"
version = "0.4.0"
edition = "2021"
publish = false

[dependencies]
clap = { version = "=4.6.7", features = ["derive"] }
crossbeam = "=0.8.5"
dashmap = "=6.2.1"
indicatif = "=0.18.6"
libc = "=0.2.191"
num_cpus = "=1.17.0"
rayon = "=1.12.0"
self_update = { version = "=0.44.0", default-features = false, features = ["ureq", "rustls", "archive-tar", "compression-flate2"] }
