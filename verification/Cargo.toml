[package]
name = "recorrelaberintos"
version = "0.1.0"
edition = "2021"
publish = false

[dependencies]
cons-list = "*"
rayon = "1"
image = { version = "*", default-features = false, features = ["png"] }
