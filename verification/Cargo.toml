[package]
name = "rvalues"
version = "0.1.0"
edition = "2021"
publish = false

[dependencies]
chrono = "0.4"
clap = { version = "4", features = ["derive"] }
rand = "0.8"
rand_chacha = "0.3"
regex = "1"
roxmltree = "0.20"
