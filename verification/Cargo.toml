[package]
name = "rgblast"
version = "0.1.0"
edition = "2021"
publish = false

[dependencies]
memmem = "0.1"
libftd2xx = "*"
pixels = "0.12"
winit = "0.28"
winit_input_helper = "0.14"
