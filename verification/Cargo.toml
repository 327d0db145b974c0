[package]
name = "prob_life"
version = "0.1.0"
edition = "2021"
publish = false

[dependencies]
clap = { version = "4", features = ["derive"] }
nom = "7"
serde_json = "1"
