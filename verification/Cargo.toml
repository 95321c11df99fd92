[package]
name = "heisenbase"
version = "0.1.0"
edition = "2021"
publish = false

[dependencies]
shakmaty = "0.29"
shakmaty-syzygy = "0.27"
pgn-reader = "0.28"
clap = { version = "4", features = ["derive"] }
anyhow = "1"
rayon = "1"
indicatif = { version = "*", features = ["rayon"] }
flate2 = "1"
rand = "0.8"
polars = { version = "*", default-features = false, features = ["lazy", "parquet"] }
