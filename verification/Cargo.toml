[package]
name = "hyfetch"
version = "0.1.0"
edition = "2021"
publish = false

[dependencies]
aho-corasick = "1"
anyhow = "1"
indexmap = { version = "2", features = ["serde"] }
itertools = "0.13"
normpath = "1"
same-file = "1"
serde = { version = "1", features = ["derive"] }
strum = { version = "0.26", features = ["derive"] }
tempfile = "3"
tracing = "0.1"
unicode-segmentation = "1"
