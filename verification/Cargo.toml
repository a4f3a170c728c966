[package]
name = "sparql_join"
version = "0.1.0"
edition = "2021"
publish = false

[dependencies]
anyhow = "1"
atty = "0.2"
clap = { version = "*", features = ["derive"] }
itertools = "*"
lazy_static = "1"
libc = "0.2"
memchr = "2"
memmap = "0.7"
rayon = "1"
