[package]
name = "starlark-dialect-build-targets"
version = "0.1.0"
edition = "2021"
publish = false

[dependencies]
anyhow = "=1.0.104"
linked-hash-map = "=0.5.6"
slog = "=2.8.2"
starlark = "=0.3.2"

[dev-dependencies]
codemap = "=0.1.3"
