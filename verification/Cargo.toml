[package]
name = "buscaluso_bench"
version = "0.1.0"
edition = "2021"
publish = false

[dependencies]
rand = "*"
unicode-normalization = "*"
sha2 = "*"
hex = "*"
rusqlite = { version = "*", features = ["bundled"] }
serde = { version = "*", features = ["derive"] }
toml = "*"
clap = { version = "*", features = ["derive"] }
time = { version = "*", features = ["formatting", "macros"] }
