[package]
name = "fio"
version = "0.1.0"
edition = "2021"
publish = false

[dependencies]
rayon = "*"
num_cpus = "*"
