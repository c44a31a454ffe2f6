[package]
name = "text_splitter"
version = "0.1.0"
edition = "2021"
publish = false

[dependencies]
pulldown-cmark = { version = "=0.13.6", default-features = false }
unicode-segmentation = "=1.13.3"

[dev-dependencies]
fake = "=5.1.0"
