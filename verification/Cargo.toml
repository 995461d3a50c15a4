[package]
name = "count"
version = "0.1.0"
edition = "2021"
publish = false

[dependencies]
clap = { version = "=4.6.7", features = ["derive"] }
hashbrown = { version = "=0.17.1", features = ["rayon"] }
partial_sort = "=1.0.0"
rayon = "=1.12.0"
