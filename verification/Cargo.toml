[package]
name = "nmap_regex_matcher"
version = "0.1.0"
edition = "2021"
publish = false

[dependencies]
regex = "1"
regex-automata = "0.4"
serde = { version = "1", features = ["derive"] }
serde_json = "1"
clap = { version = "4", features = ["derive"] }
rayon = "1"
anyhow = "1"
