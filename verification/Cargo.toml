[package]
name = "steve"
version = "0.1.0"
edition = "2021"
publish = false

[dependencies]
rss = "2"
icu_normalizer = "2"
clap = { version = "4", features = ["derive"] }
homedir = "0.3"
owo-colors = "4"
rayon = "1"
reqwest = { version = "0.12", features = ["blocking"] }
serde = { version = "1", features = ["derive"] }
thiserror = "2"
toml = "0.8"
