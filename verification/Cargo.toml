[package]
name = "bn_static_analysis"
version = "0.1.0"
edition = "2021"
publish = false

[dependencies]
biodivine-lib-bdd = "*"
