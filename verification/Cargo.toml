[package]
name = "hyper_fs"
version = "0.1.0"
edition = "2021"
publish = false

[dependencies]
globset = "*"
ignore = "*"
jwalk = "*"
rayon = "*"
walkdir = "*"
libc = "*"
