[package]
name = "append_cover_epub"
version = "0.1.0"
edition = "2021"
publish = false

[dependencies]
zip = { version = "0.6", default-features = false, features = ["deflate"] }
walkdir = "2"
structopt = "0.3"
