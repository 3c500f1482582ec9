[package]
name = "dir_stats"
version = "0.1.0"
edition = "2021"
publish = false

[dependencies]
glob = "*"
git2 = { version = "*", default-features = false }
walkdir = "*"
