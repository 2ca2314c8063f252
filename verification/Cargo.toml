[package]
name = "rust4geo"
version = "0.1.0"
edition = "2021"
publish = false

[dependencies]
md5 = "*"
