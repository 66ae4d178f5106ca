[package]
name = "coolc"
version = "0.1.0"
edition = "2021"
publish = false

[dependencies]
ariadne = "0.5"
clap = { version = "4", features = ["derive"] }
