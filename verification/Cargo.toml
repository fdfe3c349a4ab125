[package]
name = "teacat_lib"
version = "0.1.0"
edition = "2021"
publish = false

[dependencies]
anstyle = "1"
anyhow = "1"
clap = "4"
html-escape = "0.2"

[dev-dependencies]
nom = "8"
regex = "1"
