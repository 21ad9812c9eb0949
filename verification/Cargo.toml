[package]
name = "fulltext"
version = "0.1.0"
edition = "2021"
publish = false

[dependencies]
xmlparser = "0.13"
rust-stemmers = "1.2"
dashmap = "5"
rayon = "1"
crossbeam = "0.8"
num_cpus = "1"
memmap = "0.7"
clap = "2"
