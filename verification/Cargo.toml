[package]
name = "automata_rust"
version = "0.1.0"
edition = "2021"
publish = false

[dependencies]
clap = { version = "4", features = ["derive"] }
graphviz-rust = "0.6"
lazy_static = "1"
