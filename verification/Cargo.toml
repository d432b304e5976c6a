[package]
name = "fink_site"
version = "0.1.0"
edition = "2021"
publish = false

[dependencies]
anyhow = "1"
fink = "*"
flate2 = "1"
image = { version = "*", default-features = false, features = ["png"] }
pulldown-cmark = "*"
tera = "1"
tiny_http = "*"
walkdir = "2"
