[package]
name = "fixnum"
version = "0.1.0"
edition = "2021"
publish = false

[dependencies]
uint = "*"
primitive-types = "*"
