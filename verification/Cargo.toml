[package]
name = "sea_of_nodes"
version = "0.1.0"
edition = "2021"

[dependencies]
once_cell = "1"
