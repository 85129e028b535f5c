[package]
name = "nolex"
version = "0.1.0"
edition = "2021"
publish = false

[dependencies]
regex = "=1.13.1"
itertools = "=0.9.0"
tree-sitter = "=0.17.1"
druid = "=0.6.0"
lazy_static = "=1.5.1"
unicode-segmentation = "=1.13.3"
