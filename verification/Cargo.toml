[package]
name = "html_parsing_tools"
version = "0.1.0"
edition = "2021"
publish = false

[dependencies]
regex = "1"
rust_iso3166 = "*"
unicode-general-category = "*"
kuchiki = "*"
linkify = "*"
rayon = "1"
lazy_static = "1"
human_name = "*"
colors-transform = "*"
dominant_color = "*"
image = { version = "*", default-features = false, features = ["png", "jpeg", "gif", "bmp", "webp"] }
pyo3 = { version = "0.21", features = ["extension-module"] }
