[package]
name = "msh"
version = "0.1.0"
edition = "2021"
publish = false

[dependencies]
atty = "*"
clap = "*"
colored = "*"
dirs = "*"
env_logger = "*"
log = "*"
rayon = "*"
rustyline = "*"
