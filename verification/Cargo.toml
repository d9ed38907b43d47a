[package]
name = "voxel"
version = "0.1.0"
edition = "2021"
publish = false

[dependencies]
amethyst = { version = "=0.15.3", default-features = false }
cgmath = "=0.18.0"
fnv = "=1.0.7"
hibitset = { version = "=0.6.4", default-features = false }
log = "=0.4.34"
parking_lot = "=0.13.0"
specs = { version = "=0.16.1", default-features = false }
