[package]
name = "fuzzy_json"
version = "0.1.0"
edition = "2021"
publish = false

[dependencies]
json = "0.12"
structopt = "0.3"

[dev-dependencies]
nom = "7"
