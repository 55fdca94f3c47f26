[package]
name = "sudoku_utils"
version = "0.1.0"
edition = "2021"
publish = false

[dependencies]
clap = "4"
itertools = "0.14"
rand = "0.9"
