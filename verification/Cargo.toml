[package]
name = "image_duplicate"
version = "0.1.0"
edition = "2021"
publish = false

[dependencies]
anyhow = "1"
clap = { version = "4", features = ["derive"] }
flate2 = "1"
fltk = "*"
image = "*"
image_hasher = "*"
permutator = "*"
rayon = "1"
thiserror = "*"
trash = "*"
walkdir = "2"

[dev-dependencies]
rmp-serde = "1"
serde = "1"
