[package]
name = "slidy_tool"
version = "0.1.0"
edition = "2021"
publish = false

[dependencies]
slidy = "=0.3.2"
xxhash-rust = { version = "=0.8.19", features = ["xxh3"] }
clap = { version = "=4.6.7", features = ["derive"] }
palette = "=0.7.7"
svg = "=0.18.0"
thiserror = "=2.0.21"
libc = "=0.2.190"
