[package]
name = "easytier_graph"
version = "0.1.0"
edition = "2021"
publish = false

[dependencies]
fixedbitset = "=0.5.7"
petgraph = "=0.8.3"
