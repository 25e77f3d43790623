[package]
name = "filestore"
version = "0.1.0"
edition = "2021"
publish = false

[dependencies]
sha2 = "0.10"
percent-encoding = "2"

[dependencies.zip]
version = "0.6"
default-features = false
features = ["deflate"]
