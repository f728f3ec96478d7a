[package]
name = "numtoys"
version = "0.1.0"
edition = "2021"
publish = false

[dependencies]
rayon = "1"
rug = { version = "1", default-features = false, features = ["integer"] }
image = { version = "0.25", default-features = false, features = ["png"] }
