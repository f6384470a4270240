[package]
name = "transcript_explorer"
version = "0.1.0"
edition = "2021"
publish = false

[dependencies]
age = "0.10"
brotli = "*"
rayon = "*"
chrono = { version = "*", default-features = false, features = ["serde", "clock"] }
clap = { version = "*", features = ["derive"] }
crossterm = "*"
directories = "*"
futures-util = "*"
indicatif = "*"
ratatui = "*"
reqwest = { version = "*", default-features = false, features = ["stream"] }
serde = { version = "*", features = ["derive"] }
serde_json = "*"
tempfile = "*"
thiserror = "*"
tokio = { version = "*", features = ["macros", "rt-multi-thread", "time"] }
wildmatch = "*"
