[package]
name = "mvtable"
version = "0.1.0"
edition = "2021"
publish = false

[dependencies]
rand = "0.10"
kiddo = "6"
capt = "3"
nalgebra = "0.35"
