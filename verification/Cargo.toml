[package]
name = "poki_launcher"
version = "0.1.0"
edition = "2021"
publish = false

[dependencies]
fuzzy-matcher = "0.3"
notify = "4"
log = "0.4"
shellexpand = "2"
anyhow = "1"
