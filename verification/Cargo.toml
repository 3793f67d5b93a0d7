[package]
name = "defradb"
version = "0.1.0"
edition = "2021"
publish = false

[dependencies]
dirs = "*"
idna = "0.5"
multiaddr = "*"
config = "*"
handlebars = "*"
once_cell = "*"
serde = { version = "*", features = ["derive"] }
serde_json = "*"
thiserror = "*"
log = "*"
