[package]
name = "caterer"
version = "0.1.0"
edition = "2021"
publish = false

[dependencies]
console = "*"
lexopt = "*"
rusqlite = { version = "*", features = ["array", "bundled"] }
