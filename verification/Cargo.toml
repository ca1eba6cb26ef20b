[package]
name = "rusty_tree"
version = "0.1.0"
edition = "2021"
publish = false

[dependencies]
docopt = "*"
lazy_static = "*"
lscolors = { version = "*", features = ["nu-ansi-term"] }
nu-ansi-term = "*"
serde = "*"
serde_derive = "*"
