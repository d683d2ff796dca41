[package]
name = "proctree"
version = "0.1.0"
edition = "2021"
publish = false

[dependencies]
anyhow = "1"
clap = { version = "4", features = ["cargo"] }
errno = "0.3"
libc = "0.2"
procfs = "*"
termtree = "*"
