[package]
name = "thinp"
version = "0.1.0"
edition = "2021"
publish = false

[dependencies]
anyhow = "1"
clap = "4"
exitcode = "1"
num_cpus = "1"
