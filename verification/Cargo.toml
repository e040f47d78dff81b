[package]
name = "similar_images"
version = "0.1.0"
edition = "2021"
publish = false

[dependencies]
getopts = "0.2"
log = "0.4"
log4rs = { version = "1", default-features = false, features = ["console_appender"] }
rayon = "1"
regex = "1"
walkdir = "2"
