[package]
name = "poisson"
version = "0.1.0"
edition = "2021"
publish = false

[dependencies]
ndarray = "=0.17.2"
num-complex = "=0.4.6"
plotters = "=0.3.7"
pulp = "=0.22.3"
thiserror = "=2.0.21"
