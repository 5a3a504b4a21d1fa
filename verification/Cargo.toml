[package]
name = "wh_iron_std"
version = "0.1.0"
edition = "2021"
publish = false

[dependencies]
half = "2"
