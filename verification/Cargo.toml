[package]
name = "thread_local"
version = "1.1.10"
edition = "2021"
publish = false

[dependencies]
crossbeam-utils = "0.8"
once_cell = "1"
