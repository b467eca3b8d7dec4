[package]
name = "par_quadrature"
version = "0.1.0"
edition = "2021"
publish = false

[dependencies]
rayon = "1"
mpi = { version = "*", default-features = false }
