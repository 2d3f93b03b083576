[package]
name = "rusty-detox"
version = "0.2.0"
edition = "2021"
publish = false

[dependencies]
clap = { version = "4", features = ["derive"] }
clap_complete = "4"
thiserror = "2"
walkdir = "2"
