[package]
name = "dirdiff"
version = "0.1.0"
edition = "2021"
publish = false

[dependencies]
anyhow = "1"
num_cpus = "1"
rayon = "1"
serde = { version = "1", features = ["derive"] }
sha2 = "0.10"
walkdir = "2"
