[package]
name = "fortunes_algorithm"
version = "0.1.0"
edition = "2021"
publish = false

[dependencies]
slotmap = "=1.1.1"
cgmath = "=0.18.0"
petgraph = "=0.6.5"
rand = "=0.8.8"
