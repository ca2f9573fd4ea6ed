[package]
name = "fgddem"
version = "0.1.0"
edition = "2021"
publish = false

[dependencies]
anyhow = "1"
clap = "4"
geotiff-writer = "*"
ndarray = "*"
quick-xml = { version = "*", features = ["serialize"] }
rayon = "1"
serde = { version = "1", features = ["derive"] }
