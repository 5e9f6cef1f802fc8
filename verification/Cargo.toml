[package]
name = "tinyjazz"
version = "0.1.0"
edition = "2021"
publish = false

[dependencies]
solvent = "0.8"
ahash = "0.7"
docopt = "1.1"
serde = { version = "1", features = ["derive"] }
codespan-reporting = "0.11"
dot = "0.1"
rhai = "1"
