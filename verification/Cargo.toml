[package]
name = "json_merge_patch"
version = "0.1.0"
edition = "2021"

[dependencies]
serde_json = "1"
