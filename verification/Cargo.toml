[package]
name = "jacobi"
version = "0.1.0"
edition = "2021"
publish = false

[dependencies]
argparse = "0.2"
rand = "0.8"
stopwatch = "*"
