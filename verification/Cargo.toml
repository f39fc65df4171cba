[package]
name = "maze_field"
version = "0.1.0"
edition = "2021"
publish = false

[dependencies]
rect-iter = "*"
num-traits = "*"
