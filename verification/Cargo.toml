[package]
name = "motif_bed"
version = "0.1.0"
edition = "2021"
publish = false

[dependencies]
clap = { version = "*", features = ["derive"] }
bio = "*"
flate2 = "*"
