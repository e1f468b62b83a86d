[package]
name = "rbxmx"
version = "0.1.0"
edition = "2021"
publish = false

[dependencies]
rbx_tree = "=0.1.0"
xml-rs = "=0.8.29"
