[package]
name = "mesh_slicer"
version = "0.1.0"
edition = "2021"
publish = false

[dependencies]
image = { version = "0.24", default-features = false, features = ["png"] }
pyo3 = "0.20"
stl_io = "*"
threadpool = "1.8"
