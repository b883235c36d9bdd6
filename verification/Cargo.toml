[package]
name = "line_density"
version = "0.1.0"
edition = "2021"
publish = false

[dependencies]
image = { version = "*", default-features = false, features = ["png"] }
palette = "0.6"
rand = "0.4"
rayon = "*"
