[package]
name = "leto_ops"
version = "0.1.0"
edition = "2021"
publish = false

[dependencies]
themis-topology = "=0.11.3"
