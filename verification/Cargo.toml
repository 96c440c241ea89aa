[package]
name = "flat_dom"
version = "0.1.0"
edition = "2021"
publish = false

[dependencies]
html5ever = "*"
markup5ever = "*"
tendril = "*"
rustler = "*"
