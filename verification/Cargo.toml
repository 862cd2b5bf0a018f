[package]
name = "aurora_layout"
version = "0.1.0"
edition = "2021"
publish = false

[dependencies]
app_units = "*"
euclid = "*"
stylo = "*"
stylo_atoms = "*"
webrender_api = "*"
