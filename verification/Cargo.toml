[package]
name = "compacts"
version = "0.1.0"
edition = "2021"
publish = false

[dependencies]
itertools = "*"
anyhow = "1"
clap = { version = "4", features = ["derive"] }
bitflags = "2"
bon = "3"
libc = "0.2"
