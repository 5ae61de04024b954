[package]
name = "luck_ecs"
version = "0.1.0"
edition = "2021"
publish = false

[dependencies]
rayon = "*"

[dev-dependencies]
rand = "*"
