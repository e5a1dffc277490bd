[package]
name = "four_cubed"
version = "0.1.0"
edition = "2021"
publish = false

[dependencies]
eventual = "0.1"
time = "0.1"
glium = "0.25"
