[package]
name = "advent_puzzles"
version = "0.1.0"
edition = "2021"
publish = false

[dependencies]
petgraph = "=0.6.5"
pathfinding = "=4.16.0"
num = "=0.4.3"
transpose = "=0.2.3"
grid = "=1.0.1"
itertools = "=0.12.1"
nom = "=7.1.3"
indicatif = "=0.17.11"
clap = { version = "=4.6.7", features = ["derive"] }
