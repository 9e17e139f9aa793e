[package]
name = "deppatcher"
version = "0.1.0"
edition = "2021"
publish = false

[dependencies]
clap = { version = "4", features = ["derive"] }
toml_edit = "0.22"
walkdir = "2"
tracing = "0.1"
tracing-subscriber = "0.3"
cargo_metadata = "0.23"
cargo-lock = "11"
guppy = "0.19"
jrsonnet-evaluator = "=0.5.0-pre95"
jrsonnet-cli = "=0.5.0-pre95"
jrsonnet-gcmodule = "=0.3.10"
jrsonnet-macros = "=0.5.0-pre95"
jrsonnet-types = "=0.5.0-pre95"
