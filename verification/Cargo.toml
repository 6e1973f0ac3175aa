[package]
name = "cloth_sim"
version = "0.1.0"
edition = "2021"
publish = false

[dependencies]
glium = "0.34"
winit = "0.29"
nalgebra = "0.32"
rand = "0.8"
rayon = "1"
