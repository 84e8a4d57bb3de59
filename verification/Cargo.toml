[package]
name = "branchless"
version = "0.1.0"
edition = "2021"
publish = false

[dependencies]
git2 = { version = "*", default-features = false }
regex = "1"
rusqlite = { version = "*", features = ["bundled"] }
structopt = "0.3"
anyhow = "1"
