[package]
name = "spikenorm"
version = "0.1.0"
edition = "2021"
publish = false

[dependencies]
clap = "4"
polars = { version = "0.38", default-features = false, features = ["csv"] }
rayon = "1"
