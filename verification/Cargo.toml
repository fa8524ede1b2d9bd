[package]
name = "petalcluster"
version = "0.1.0"
edition = "2021"
publish = false

[dependencies]
ndarray = "*"
petal-clustering = "*"
petal-neighbors = "*"
