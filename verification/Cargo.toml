[package]
name = "pdf_to_epub"
version = "0.1.0"
edition = "2021"
publish = false

[dependencies]
ab_glyph = "=0.2.32"
base64 = "=0.22.1"
crossterm = "=0.28.1"
epub-builder = "=0.8.3"
euclid = "=0.20.14"
image = { version = "=0.25.10", default-features = false, features = ["bmp", "gif", "jpeg", "png", "tiff", "webp"] }
lopdf = { version = "=0.42.0", default-features = false }
pdf-extract = "=0.12.1"
ratatui = "=0.29.0"
regex = "=1.13.1"
