[package]
name = "photomosaic"
version = "0.1.0"
edition = "2021"
publish = false

[dependencies]
hungarian = "=1.1.1"
image = { version = "=0.25.10", default-features = false, features = ["png", "jpeg", "gif", "bmp", "webp", "tiff", "rayon"] }
serde_json = "=1.0.154"
clap = { version = "=4.6.7", features = ["derive"] }
indicatif = "=0.17.11"
num_cpus = "=1.17.0"
palette = "=0.7.7"
rayon = "=1.12.0"
walkdir = "=2.5.0"
imagesize = "=0.15.0"
