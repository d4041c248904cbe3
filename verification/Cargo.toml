[package]
name = "resphys"
version = "0.1.0"
edition = "2021"
publish = false

[dependencies]
fxhash = "=0.2.1"
generational-arena = "=0.2.9"
glam = "=0.9.5"
petgraph = "=0.5.1"
