[package]
name = "gelo"
version = "0.1.0"
edition = "2021"
publish = false

[dependencies]
anyhow = "=1.0.104"
cblas-sys = "=0.1.4"
half = "=2.7.1"
ndarray = "=0.16.1"
rand = "=0.9.5"
rand_chacha = "=0.9.0"
rand_distr = "=0.5.1"
rustdct = "=0.7.1"
thiserror = "=2.0.21"
tracing = "=0.1.44"
zeroize = "=1.9.1"
