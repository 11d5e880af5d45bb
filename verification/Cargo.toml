[package]
name = "cargotom"
version = "0.1.0"
edition = "2021"
publish = false

[dependencies]
taplo = "=0.14.0"
url = "=2.5.8"
serde = { version = "=1.0.229", features = ["derive"] }
serde_json = "=1.0.154"
toml = "=1.1.8"
regex = "=1.13.1"
indexmap = { version = "=2.14.2", features = ["serde"] }
fst = "=0.4.7"
urlencoding = "=2.1.3"
html2md = "=0.2.17"
trie-rs = "*"
