[package]
name = "voxel_octree"
version = "0.1.0"
edition = "2021"
publish = false

[dependencies]
slab = "*"

[dev-dependencies]
rand = "0.8"
