[package]
name = "orchard"
version = "0.1.0"
edition = "2021"
publish = false

[dependencies]
ff = "*"
group = "*"
halo2 = "*"
nonempty = "*"
pasta_curves = "*"
rand = "*"
