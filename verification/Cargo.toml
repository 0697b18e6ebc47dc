[package]
name = "spadefmt"
version = "0.1.0"
edition = "2021"
publish = false

[dependencies]
argh = "=0.1.19"
camino = "=1.2.6"
snafu = "=0.9.2"
serde = { version = "=1.0.229", features = ["derive"] }
toml = "=1.1.8"
spade-ast = "=0.20.0"
spade-parser = "=0.20.0"
spade-common = "=0.20.0"
spade-diagnostics = "=0.20.0"
spade-codespan-reporting = "=0.12.0"
