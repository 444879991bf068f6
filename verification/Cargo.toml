[package]
name = "gff_diff"
version = "0.1.0"
edition = "2021"
publish = false

[dependencies]
bio = "*"
getopts = "*"
json = "*"
multimap = "*"
serde_json = "*"
