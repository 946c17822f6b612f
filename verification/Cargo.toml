[package]
name = "osm_graph"
version = "0.1.0"
edition = "2021"
publish = false

[dependencies]
osmpbfreader = "*"
serde = { version = "*", features = ["derive"] }
rmp-serde = "*"
rayon = "*"
