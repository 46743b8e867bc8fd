[package]
name = "fin_part_ord"
version = "0.1.0"
edition = "2021"
publish = false

[dependencies]
daggy = "=0.9.0"
fixedbitset = "=0.5.7"
petgraph = "=0.8.3"
