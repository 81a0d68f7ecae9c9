[package]
name = "city_gen"
version = "0.1.0"
edition = "2021"

[dependencies]
clap = { version = "4", features = ["derive"] }
pathfinding = "4"
pixels = "*"
rand = "0.9"
rand_chacha = "0.9"
rayon = "1"
winit = "0.29"
winit_input_helper = "0.16"
