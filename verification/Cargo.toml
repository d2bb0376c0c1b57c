[package]
name = "tame"
version = "0.1.0"
edition = "2021"
publish = false

[dependencies]
regex = "=1.13.1"
rust-stemmers = "=1.2.0"
serde_json = "=1.0.154"
sprs = "=0.11.6"
rustc-hash = "=2.1.3"
rayon = "=1.12.0"
once_cell = "=1.21.4"
duckdb = { version = "=1.20000.0", default-features = false, features = ["vscalar", "vtab-loadable"] }
duckdb-loadable-macros = "=1.20000.0"
libduckdb-sys = { version = "=1.20000.0", default-features = false, features = ["loadable-extension"] }
