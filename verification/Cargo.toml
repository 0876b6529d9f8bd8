[package]
name = "kosmo"
version = "0.1.0"
edition = "2021"
publish = false

[dependencies]
fasthash = "=0.4.0"
clap = { version = "=4.6.7", features = ["derive"] }
serde = { version = "=1.0.228", features = ["derive"] }
gnuplot = "=0.0.46"
