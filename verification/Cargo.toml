[package]
name = "sgpe"
version = "0.1.0"
edition = "2021"
publish = false

[dependencies]
ndarray = "0.15"
num = "0.4"
num-complex = "0.4"
rand = "0.8"
rand_distr = "0.4"
rayon = "1"
rustfft = "6"
