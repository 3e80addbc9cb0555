[package]
name = "optimal-branching"
version = "0.1.0"
edition = "2021"
publish = false

[dependencies]
rand = "0.9"
num-traits = "0.2"
thiserror = "2"
good_lp = { version = "1", default-features = false, features = ["microlp"] }
