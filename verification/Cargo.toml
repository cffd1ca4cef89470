[package]
name = "unique_filter"
version = "0.1.0"
edition = "2021"
publish = false

[dependencies]
clap = { version = "=4.6.7", features = ["derive"] }
either = "=1.19.0"
hashbrown = "=0.17.1"
tempfile = "=3.27.0"
unicase = "=2.10.0"
