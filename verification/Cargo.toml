[package]
name = "complesh"
version = "0.1.0"
edition = "2021"
publish = false

[dependencies]
clap = "2"
crossbeam = "*"
ignore = "*"
nix = { version = "*", features = ["signal", "process"] }
rayon = "*"
regex = "*"
termion = "*"
walkdir = "*"
