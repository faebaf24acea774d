[package]
name = "pfviz"
version = "0.1.0"
edition = "2021"
publish = false

[dependencies]
nonoverlapping_interval_tree = "*"
