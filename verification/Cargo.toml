[package]
name = "foph_diff"
version = "0.1.0"
edition = "2021"
publish = false

[dependencies]
serde_json = "*"
calamine = "*"
chrono = "*"
csv = "*"
rayon = "*"
reqwest = { version = "*", default-features = false, features = ["blocking"] }
