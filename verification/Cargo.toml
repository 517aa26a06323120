[package]
name = "asmr"
version = "0.1.0"
edition = "2021"
publish = false

[dependencies]
pinocchio = "0.9"
