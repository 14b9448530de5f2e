[package]
name = "lotus"
version = "0.1.0"
edition = "2021"
publish = false

[dependencies]
num-bigint = "0.4"
num-rational = "0.4"
strsim = "0.11"
clap = { version = "4", features = ["derive"] }
anyhow = "1"
ariadne = "0.5"
tracing = "0.1"
tracing-subscriber = "0.3"
