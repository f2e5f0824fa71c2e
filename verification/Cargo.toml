[package]
name = "ogc2026"
version = "0.1.0"
edition = "2021"
publish = false

[dependencies]
rand_pcg = "0.9"
serde = { version = "1", features = ["derive"] }
serde_json = "1"
serde_yaml = "0.9"
clap = { version = "4", features = ["derive"] }
rayon = "1"
geo = "*"
