[package]
name = "stgit"
version = "0.1.0"
edition = "2021"
publish = false

[dependencies]
git2 = "*"
clap = "*"
indexmap = "*"
