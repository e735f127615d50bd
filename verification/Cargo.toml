[package]
name = "json_typings"
version = "1.0.0"
edition = "2021"
publish = false

[dependencies]
clap = "=2.34.0"
config = "=0.11.0"
convert_case = "=0.6.0"
fancy-regex = "=0.7.1"
ijson = "=0.1.3"
petgraph = "=0.6.5"
serde = { version = "=1.0.229", features = ["derive"] }
serde_json = "=1.0.64"
unicode-segmentation = "=1.13.3"
