[package]
name = "parabel"
version = "0.1.0"
edition = "2021"
publish = false

[dependencies]
serde = { version = "*", features = ["derive"] }
rayon = "*"
log = "*"
itertools = "*"
hashbrown = "*"
time = "*"
