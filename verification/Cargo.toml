[package]
name = "nbody_sim"
version = "0.1.0"
edition = "2021"
publish = false

[dependencies]
nalgebra = "0.32"
rayon = "1.8"
serde = { version = "1.0", features = ["derive"] }
serde_json = "1.0"
plotters = { version = "0.3", default-features = false, features = ["svg_backend", "line_series"] }
