[package]
name = "kmer_scan"
version = "0.1.0"
edition = "2021"
publish = false

[dependencies]
noodles = { version = "*", features = ["fasta"] }
indicatif = "*"
