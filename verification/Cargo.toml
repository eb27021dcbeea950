[package]
name = "itgla"
version = "0.2.2"
edition = "2021"
publish = false

[dependencies]
calamine = "*"
csv = "1"
thiserror = "2"
rusqlite = { version = "0.37", features = ["bundled"] }
arboard = { version = "3", default-features = false }
rfd = "*"
