[package]
name = "mdbook_scientific"
version = "0.1.0"
edition = "2021"
publish = false

[dependencies]
sha2 = "=0.11.0"
nom-bibtex = "=0.6.0"
which = "=8.0.6"
ndarray = "=0.17.2"
rand = "=0.10.3"
mdbook = { version = "=0.4.52", default-features = false }
