[package]
name = "autograd"
version = "0.1.0"
edition = "2021"
publish = false

[dependencies]
num-bigfloat = "=1.7.2"
rand = "=0.8.8"
