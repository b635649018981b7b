[package]
name = "yapm"
version = "0.1.0"
edition = "2021"
publish = false

[dependencies]
lopdf = "*"
zip = "*"
colored = "*"
gtk4 = "*"
poppler-rs = "*"
