[package]
name = "cfn_clean"
version = "0.1.0"
edition = "2021"
publish = false

[dependencies]
anyhow = "1"
include_dir = "0.7"
indexmap = "2"
itertools = "*"
yaml-rust2 = "*"
