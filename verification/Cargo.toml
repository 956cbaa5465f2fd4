[package]
name = "simplicial_homology"
version = "0.1.0"
edition = "2021"
publish = false

[dependencies]
ndarray = { version = "0.15", default-features = false, features = ["std"] }
bitvec = { version = "1", default-features = false, features = ["alloc", "std"] }

[dev-dependencies]
nom = "7"
