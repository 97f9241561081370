[package]
name = "log_tags"
version = "0.1.0"
edition = "2021"
publish = false

[dependencies]
bit-set = "0.5"
ethbloom = "0.13"
regex = "1"
rlua = "0.19"
clap = "2"
nom = "5"
rustyline = "6"
