[package]
name = "ecoji"
version = "0.1.0"
edition = "2021"
publish = false

[dependencies]
clap = { version = "4", features = ["cargo"] }
phf = "0.11"
phf_generator = "0.11"
