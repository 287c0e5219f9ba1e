[package]
name = "bron_kerbosch"
version = "0.1.0"
edition = "2021"

[dependencies]
csv = "*"
serde = { version = "*", features = ["derive"] }
plotters = "*"
