[package]
name = "ocrs"
version = "0.1.0"
edition = "2021"
publish = false

[dependencies]
anyhow = "*"
rten = "*"
rten-tensor = "*"
rten-imageproc = "*"
