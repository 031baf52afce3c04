[package]
name = "txt_sorter"
version = "0.1.0"
edition = "2021"
publish = false

[dependencies]
rayon = "*"
clap = { version = "*", features = ["derive"] }
log = "*"
simple_logger = "*"
tempfile = "*"
thiserror = "*"
tokio = { version = "*", features = ["fs", "io-util", "rt-multi-thread", "macros"] }
