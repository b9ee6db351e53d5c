[package]
name = "gpui_gfm"
version = "0.1.0"
edition = "2021"
publish = false

[dependencies]
comrak = { version = "0.50", default-features = false }
tl = "0.7"
unicode-segmentation = "1"
