[package]
name = "lattice_boltzmann"
version = "0.1.0"
edition = "2021"
publish = false

[dependencies]
nalgebra = "*"
image = "*"
imageproc = "*"
piston_window = "*"
