[package]
name = "nsga2"
version = "0.1.0"
edition = "2021"
publish = false

[dependencies]
rand = "0.4"
rayon = "1"
time = "0.1"
