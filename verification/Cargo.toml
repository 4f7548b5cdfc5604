[package]
name = "vrbag_s102"
version = "0.1.0"
edition = "2021"
publish = false

[dependencies]
gdal = "0.17"
hdf5 = "0.8"
ndarray = "0.15"
rayon = "1"
