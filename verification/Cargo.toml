[package]
name = "red"
version = "0.1.0"
edition = "2021"
publish = false

[dependencies]
clap = { version = "=4.6.7", features = ["derive"] }
ignore = "=0.4.34"
rayon = "=1.12.0"
rfd = { version = "=0.15.4", default-features = false, features = ["xdg-portal", "async-std"] }
slint = { version = "=1.18.1", default-features = false, features = ["std", "compat-1-2", "backend-qt"] }
trash = "=5.2.9"
wildmatch = "=2.7.0"
