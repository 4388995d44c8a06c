[package]
name = "washi"
version = "0.3.0"
edition = "2021"
publish = false

[dependencies]
anyhow = "=1.0.104"
clap = { version = "=4.6.7", features = ["derive"] }
glob = "=0.3.4"
itertools = "=0.14.0"
unicode-ident = "=1.0.27"
wgsl-parse = "=0.3.2"
wgsl-types = "=0.3.2"
