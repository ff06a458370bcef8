[package]
name = "wos_pde"
version = "0.1.0"
edition = "2021"
publish = false

[dependencies]
anyhow = "*"
plotters = "*"
rand = "*"
rayon = "*"
