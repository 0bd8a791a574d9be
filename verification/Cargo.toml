[package]
name = "hoi4_parser"
version = "0.1.0"
edition = "2021"
publish = false

[dependencies]
hoi4save = "*"
jomini = "*"
regex = "*"
serde = { version = "*", features = ["derive"] }
serde_json = "*"
