[package]
name = "garlic_crust"
version = "0.1.0"
edition = "2021"
publish = false

[dependencies]
libm = "0.2"
pest = "2"
pest_derive = "2"
petgraph = "*"
rustop = "*"
