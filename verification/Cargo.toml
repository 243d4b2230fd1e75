[package]
name = "framework_bundler"
version = "0.1.0"
edition = "2021"
publish = false

[dependencies]
anyhow = "1"
indicatif = "0.17"
