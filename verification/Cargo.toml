[package]
name = "elise"
version = "0.1.0"
edition = "2021"
publish = false

[dependencies]
crossbeam = "0.8"
dashmap = "5.5"
once_cell = "1"
parking_lot = "0.12"
