[package]
name = "polonius"
version = "0.1.0"
edition = "2021"
publish = false

[dependencies]
datafrog = "=2.0.1"
pico-args = "=0.3.4"
log = "=0.4.35"
rustc-hash = "=1.1.0"
petgraph = "0.6"
