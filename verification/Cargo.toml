[package]
name = "rome_map"
version = "0.1.0"
edition = "2021"
publish = false

[dependencies]
bitvec = "*"
xz2 = "*"
zstd = "*"
num_cpus = "*"
shapefile = "*"
