[package]
name = "fair_routes"
version = "0.1.0"
edition = "2021"
publish = false

[dependencies]
log = "0.4"
petgraph = "0.6"
rand = "0.8"
simple_logger = "1"
