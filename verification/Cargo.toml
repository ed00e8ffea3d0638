[package]
name = "tex_models"
version = "0.1.0"
edition = "2021"
publish = false

[dependencies]
markdown = "*"
ratex-parser = "*"
z3 = "*"
