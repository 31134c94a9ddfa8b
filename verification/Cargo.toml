[package]
name = "pseudo_jaro_winkler"
version = "0.1.0"
edition = "2021"
publish = false

[dependencies]
itertools = "*"
rayon = "*"
strsim = "*"
eddie = "*"
indicatif = { version = "*", features = ["rayon"] }
