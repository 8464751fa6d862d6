[package]
name = "kifmm"
version = "0.1.0"
edition = "2021"
publish = false

[dependencies]
num = "*"
rayon = "*"
itertools = "*"
rlst = { version = "*", default-features = false }
fftw = { version = "*", default-features = false }
