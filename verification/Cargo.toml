[package]
name = "rote"
version = "0.1.0"
edition = "2021"
publish = false

[dependencies]
filetime = "*"
getopts = "*"
glob = "*"
lazysort = "*"
log = "*"
lua = "*"
num_cpus = "*"
regex = "*"
term = "*"
