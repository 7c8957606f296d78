[package]
name = "fpr"
version = "0.1.0"
edition = "2021"

[dependencies]
anyhow = "1"
clap = { version = "4", features = ["derive"] }
globwalk = "0.9"
walkdir = "2"
